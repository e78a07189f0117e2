//! The test for a full row, lane by lane as each instruction set does it.
use crate::bitmap::row::{lemma_row_full_words, row_full, Row, FULL_WORD, WORDS_PER_ROW};
use vstd::prelude::*;

verus! {

/// The instruction sets that a row is compared with.
#[derive(Debug, Clone, Copy, PartialEq, Eq, Structural)]
pub enum ISA {
    /// Two vectors of four 32-bit lanes each.
    SSE2,
    /// One vector of four 64-bit lanes.
    AVX2,
    /// Two vectors of two 64-bit lanes each.
    NEON,
}

/// The processor architectures that the bitmap runs on.
#[derive(Debug, Clone, Copy, PartialEq, Eq, Structural)]
pub enum Arch {
    /// `x86_64`, where SSE2 is always there and AVX2 may be.
    X86_64,
    /// `aarch64`, where NEON is always there.
    Aarch64,
}

/// The widest instruction set of an architecture, given whether AVX2 was detected on it.
pub open spec fn best_isa(arch: Arch, avx2: bool) -> ISA {
    match arch {
        Arch::X86_64 => if avx2 {
            ISA::AVX2
        } else {
            ISA::SSE2
        },
        Arch::Aarch64 => ISA::NEON,
    }
}

/// Tests rows with one instruction set.
#[derive(Debug, Clone, Copy)]
pub struct SIMD {
    isa: ISA,
}

/// Both 32-bit lanes of a word are all ones.
fn lanes_full(word: u64) -> (r: bool)
    ensures
        r == (word == FULL_WORD),
{
    let lo: u64 = word & 0xFFFF_FFFF;
    let hi: u64 = word >> 32;
    assert((lo == 0xFFFF_FFFF && hi == 0xFFFF_FFFF) <==> word == 0xFFFF_FFFF_FFFF_FFFFu64)
        by (bit_vector)
        requires
            lo == word & 0xFFFF_FFFF,
            hi == word >> 32,
    ;
    lo == 0xFFFF_FFFF && hi == 0xFFFF_FFFF
}

impl SIMD {
    /// The instruction set in use.
    pub closed spec fn isa(&self) -> ISA {
        self.isa
    }

    /// Picks the instruction set for an architecture. `avx2` says whether AVX2 was detected.
    pub fn new(arch: Arch, avx2: bool) -> (simd: SIMD)
        ensures
            simd.isa() == best_isa(arch, avx2),
    {
        match arch {
            Arch::X86_64 => {
                if avx2 {
                    return SIMD { isa: ISA::AVX2 };
                }
                SIMD { isa: ISA::SSE2 }
            },
            Arch::Aarch64 => SIMD { isa: ISA::NEON },
        }
    }

    /// Checks that every slot of a row is taken.
    ///
    /// The answer is the same with every instruction set.
    pub fn is_row_full(&self, row: &Row) -> (r: bool)
        ensures
            r == row_full(*row),
    {
        match self.isa {
            ISA::SSE2 => Self::is_row_full_sse2(row),
            ISA::AVX2 => Self::is_row_full_avx2(row),
            ISA::NEON => Self::is_row_full_neon(row),
        }
    }

    /// [`SIMD::is_row_full`] in halves, by 32-bit lanes.
    pub fn is_row_full_sse2(row: &Row) -> (r: bool)
        ensures
            r == row_full(*row),
    {
        let lo_full = lanes_full(row[0]) && lanes_full(row[1]);
        let hi_full = lanes_full(row[2]) && lanes_full(row[3]);
        proof {
            lemma_row_full_words(*row);
        }
        lo_full && hi_full
    }

    /// [`SIMD::is_row_full`] at once, by 64-bit lanes.
    pub fn is_row_full_avx2(row: &Row) -> (r: bool)
        ensures
            r == row_full(*row),
    {
        proof {
            lemma_row_full_words(*row);
        }
        row[0] == FULL_WORD && row[1] == FULL_WORD && row[2] == FULL_WORD && row[3] == FULL_WORD
    }

    /// [`SIMD::is_row_full`] on the bitwise conjunction of the two halves.
    pub fn is_row_full_neon(row: &Row) -> (r: bool)
        ensures
            r == row_full(*row),
    {
        let lane0: u64 = row[0] & row[2];
        let lane1: u64 = row[1] & row[3];
        proof {
            lemma_row_full_words(*row);
            lemma_and_full(row@[0], row@[2]);
            lemma_and_full(row@[1], row@[3]);
        }
        lane0 == FULL_WORD && lane1 == FULL_WORD
    }
}

proof fn lemma_and_full(a: u64, b: u64)
    ensures
        a & b == FULL_WORD <==> (a == FULL_WORD && b == FULL_WORD),
{
    assert(a & b == 0xFFFF_FFFF_FFFF_FFFFu64 <==> (a == 0xFFFF_FFFF_FFFF_FFFFu64 && b
        == 0xFFFF_FFFF_FFFF_FFFFu64)) by (bit_vector);
}

/// AVX2 is used where it was detected on `x86_64`, SSE2 on every other `x86_64`, and NEON on
/// `aarch64`.
pub proof fn law_widest_instruction_set_is_used(arch: Arch, avx2: bool, simd: SIMD)
    requires
        call_ensures(SIMD::new, (arch, avx2), simd),
    ensures
        arch is X86_64 && avx2 <==> simd.isa() is AVX2,
        arch is X86_64 && !avx2 <==> simd.isa() is SSE2,
        arch is Aarch64 <==> simd.isa() is NEON,
{
}

/// Checks that every slot of a row is taken, word by word.
pub fn is_slot_full_linear(slot: &Row) -> (r: bool)
    ensures
        r == row_full(*slot),
{
    proof {
        lemma_row_full_words(*slot);
    }
    let mut w: usize = 0;
    while w < WORDS_PER_ROW
        invariant
            forall|v: int| 0 <= v < w ==> #[trigger] slot@[v] == FULL_WORD,
            row_full(*slot) <==> forall|v: int|
                0 <= v < WORDS_PER_ROW ==> #[trigger] slot@[v] == FULL_WORD,
        decreases WORDS_PER_ROW - w,
    {
        if slot[w] != FULL_WORD {
            return false;
        }
        w = w + 1;
    }
    true
}

} // verus!
