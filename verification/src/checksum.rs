//! The checksum of a block, as `frozen_core` computes it.
//!
//! CRC32C is the remainder of a division of polynomials over two elements. The bits of the bytes,
//! the lowest of each byte first, run through a register that starts as all ones; the checksum is
//! the complement of what the register holds in the end.
use vstd::prelude::*;

verus! {

/// The Castagnoli polynomial without its highest power, the coefficient of power 0 in the highest
/// bit.
pub const CASTAGNOLI_POLYNOMIAL: u32 = 0x82F63B78;

/// The register after one step: the lowest bit leaves it, and the polynomial is taken off where
/// that bit was set.
pub open spec fn crc_bit(crc: u32) -> u32 {
    if crc & 1 == 1 {
        (crc >> 1) ^ CASTAGNOLI_POLYNOMIAL
    } else {
        crc >> 1
    }
}

/// The register after `k` steps.
pub open spec fn crc_bits(crc: u32, k: nat) -> u32
    decreases k,
{
    if k == 0 {
        crc
    } else {
        crc_bit(crc_bits(crc, (k - 1) as nat))
    }
}

/// The register after a byte.
pub open spec fn crc_byte(crc: u32, byte: u8) -> u32 {
    crc_bits(crc ^ byte as u32, 8)
}

/// The register after some bytes.
pub open spec fn crc_register(crc: u32, bytes: Seq<u8>) -> u32
    decreases bytes.len(),
{
    if bytes.len() == 0 {
        crc
    } else {
        crc_byte(crc_register(crc, bytes.drop_last()), bytes.last())
    }
}

/// The CRC32C checksum of some bytes.
pub open spec fn crc32c(bytes: Seq<u8>) -> u32 {
    !crc_register(0xFFFF_FFFF, bytes)
}

/// `frozen_core::crc32::Crc32C`, which carries the choice between the hardware and the software
/// way to compute a checksum.
#[verifier::external_type_specification]
#[verifier::external_body]
pub struct ExCrc32C(frozen_core::crc32::Crc32C);

/// `frozen_core::crc32::Crc32C::new` picks the fastest way that the machine offers. Nothing is
/// claimed of the choice; it does not show in a checksum.
pub assume_specification[ frozen_core::crc32::Crc32C::new ]() -> (crc: frozen_core::crc32::Crc32C)
;

/// `frozen_core::crc32::Crc32C::crc` computes the CRC32C checksum of `buf`, which has to be a
/// whole number of 8-byte words. All ways to compute it give the same value, on the little-endian
/// machines that `frozen_core` supports.
pub assume_specification[ frozen_core::crc32::Crc32C::crc ](
    crc: &frozen_core::crc32::Crc32C,
    buf: &[u8],
) -> (sum: u32)
    requires
        buf@.len() % 8 == 0,
    ensures
        sum == crc32c(buf@),
;

/// Nothing has the checksum 0, and a byte more changes a checksum in eight steps: the byte is added
/// to the complement of the checksum, and in each step the lowest bit leaves and, where it was set,
/// 0x82F63B78 is added.
pub proof fn law_checksum_of_one_byte_more(bytes: Seq<u8>, byte: u8)
    ensures
        crc32c(Seq::empty()) == 0,
        ({
            let p = 0x82F63B78u32;
            let x0 = !crc32c(bytes) ^ byte as u32;
            let x1 = if x0 & 1 == 1 { (x0 >> 1) ^ p } else { x0 >> 1 };
            let x2 = if x1 & 1 == 1 { (x1 >> 1) ^ p } else { x1 >> 1 };
            let x3 = if x2 & 1 == 1 { (x2 >> 1) ^ p } else { x2 >> 1 };
            let x4 = if x3 & 1 == 1 { (x3 >> 1) ^ p } else { x3 >> 1 };
            let x5 = if x4 & 1 == 1 { (x4 >> 1) ^ p } else { x4 >> 1 };
            let x6 = if x5 & 1 == 1 { (x5 >> 1) ^ p } else { x5 >> 1 };
            let x7 = if x6 & 1 == 1 { (x6 >> 1) ^ p } else { x6 >> 1 };
            let x8 = if x7 & 1 == 1 { (x7 >> 1) ^ p } else { x7 >> 1 };
            crc32c(bytes.push(byte)) == !x8
        }),
{
    assert(!0xFFFF_FFFFu32 == 0) by (bit_vector);
    assert(bytes.push(byte).drop_last() =~= bytes);
    let crc = crc_register(0xFFFF_FFFF, bytes);
    assert(!(!crc) == crc) by (bit_vector);
    reveal_with_fuel(crc_bits, 9);
}

/// Different registers stay different.
proof fn lemma_bits_injective(a: u32, b: u32, k: nat)
    requires
        crc_bits(a, k) == crc_bits(b, k),
    ensures
        a == b,
    decreases k,
{
    if k > 0 {
        let x = crc_bits(a, (k - 1) as nat);
        let y = crc_bits(b, (k - 1) as nat);
        assert(crc_bit(x) == crc_bit(y) ==> x == y) by (bit_vector);
        lemma_bits_injective(a, b, (k - 1) as nat);
    }
}

/// What is added to the register after `k` steps may as well be added `k` bits higher before them.
proof fn lemma_bits_xor(crc: u32, y: u32, k: u32)
    requires
        k <= 8,
        (y << k) >> k == y,
    ensures
        crc_bits(crc, k as nat) ^ y == crc_bits(crc ^ (y << k), k as nat),
    decreases k,
{
    if k == 0 {
        assert(y << 0u32 == y) by (bit_vector);
    } else {
        let j = (k - 1) as u32;
        let y2 = y << 1;
        let before = crc_bits(crc, j as nat);
        assert((y2 << j) >> j == y2 && y2 << j == y << k) by (bit_vector)
            requires
                1 <= k <= 8,
                j == k - 1,
                y2 == y << 1,
                (y << k) >> k == y,
        ;
        assert(crc_bit(before) ^ y == crc_bit(before ^ y2)) by (bit_vector)
            requires
                1 <= k <= 8,
                y2 == y << 1,
                (y << k) >> k == y,
        ;
        lemma_bits_xor(crc, y2, j);
    }
}

/// Four bytes as one number, the lowest first.
spec fn word_of(b: Seq<u8>) -> u32 {
    b[0] as u32 ^ ((b[1] as u32) << 8) ^ ((b[2] as u32) << 16) ^ ((b[3] as u32) << 24)
}

/// Four bytes run through the register as one number does.
proof fn lemma_register_word(crc: u32, b: Seq<u8>)
    requires
        b.len() == 4,
    ensures
        crc_register(crc, b) == crc_bits(
            crc_bits(crc_bits(crc_bits(crc ^ word_of(b), 8), 8), 8),
            8,
        ),
{
    let (b0, b1, b2, b3) = (b[0] as u32, b[1] as u32, b[2] as u32, b[3] as u32);
    reveal_with_fuel(crc_register, 5);
    let x0 = crc ^ b0;
    let x1 = x0 ^ (b1 << 8);
    let x2 = x1 ^ (b2 << 16);
    assert((b1 << 8) >> 8 == b1 && (b2 << 8) >> 8 == b2 && (b3 << 8) >> 8 == b3) by (bit_vector)
        requires
            b1 < 256,
            b2 < 256,
            b3 < 256,
    ;
    assert(((b2 << 8) << 8) >> 8 == b2 << 8 && (b2 << 8) << 8 == b2 << 16) by (bit_vector)
        requires
            b2 < 256,
    ;
    assert(((b3 << 8) << 8) >> 8 == b3 << 8 && (b3 << 8) << 8 == b3 << 16 && ((b3 << 16) << 8) >> 8
        == b3 << 16 && (b3 << 16) << 8 == b3 << 24) by (bit_vector)
        requires
            b3 < 256,
    ;
    lemma_bits_xor(x0, b1, 8);
    lemma_bits_xor(crc_bits(x1, 8), b2, 8);
    lemma_bits_xor(x1, b2 << 8, 8);
    lemma_bits_xor(crc_bits(crc_bits(x2, 8), 8), b3, 8);
    lemma_bits_xor(crc_bits(x2, 8), b3 << 8, 8);
    lemma_bits_xor(x2, b3 << 16, 8);
    assert(x2 ^ (b3 << 24) == crc ^ (b0 ^ (b1 << 8) ^ (b2 << 16) ^ (b3 << 24))) by (bit_vector)
        requires
            x0 == crc ^ b0,
            x1 == x0 ^ (b1 << 8),
            x2 == x1 ^ (b2 << 16),
    ;
    assert(b.drop_last().drop_last().drop_last().drop_last() =~= Seq::<u8>::empty());
}

/// Different groups of four bytes leave different registers.
proof fn lemma_word_injective(crc: u32, a: Seq<u8>, b: Seq<u8>)
    requires
        a.len() == 4,
        b.len() == 4,
        crc_register(crc, a) == crc_register(crc, b),
    ensures
        a == b,
{
    lemma_register_word(crc, a);
    lemma_register_word(crc, b);
    let x = crc ^ word_of(a);
    let y = crc ^ word_of(b);
    let (x1, y1) = (crc_bits(x, 8), crc_bits(y, 8));
    let (x2, y2) = (crc_bits(x1, 8), crc_bits(y1, 8));
    let (x3, y3) = (crc_bits(x2, 8), crc_bits(y2, 8));
    lemma_bits_injective(x3, y3, 8);
    lemma_bits_injective(x2, y2, 8);
    lemma_bits_injective(x1, y1, 8);
    lemma_bits_injective(x, y, 8);
    let (a0, a1, a2, a3) = (a[0] as u32, a[1] as u32, a[2] as u32, a[3] as u32);
    let (b0, b1, b2, b3) = (b[0] as u32, b[1] as u32, b[2] as u32, b[3] as u32);
    assert(a0 == b0 && a1 == b1 && a2 == b2 && a3 == b3) by (bit_vector)
        requires
            a0 < 256 && a1 < 256 && a2 < 256 && a3 < 256,
            b0 < 256 && b1 < 256 && b2 < 256 && b3 < 256,
            crc ^ (a0 ^ (a1 << 8) ^ (a2 << 16) ^ (a3 << 24)) == crc ^ (b0 ^ (b1 << 8) ^ (b2 << 16)
                ^ (b3 << 24)),
    ;
    assert(a =~= b);
}

/// Bytes may be handed to the register in two parts.
proof fn lemma_register_parts(crc: u32, bytes: Seq<u8>, at: int)
    requires
        0 <= at <= bytes.len(),
    ensures
        crc_register(crc, bytes) == crc_register(crc_register(crc, bytes.take(at)), bytes.skip(at)),
    decreases bytes.len(),
{
    if at == bytes.len() {
        assert(bytes.take(at) =~= bytes);
    } else {
        let front = bytes.drop_last();
        lemma_register_parts(crc, front, at);
        assert(front.take(at) =~= bytes.take(at));
        assert(front.skip(at) =~= bytes.skip(at).drop_last());
    }
}

/// Different registers stay different under the same bytes.
proof fn lemma_register_injective(a: u32, b: u32, bytes: Seq<u8>)
    requires
        crc_register(a, bytes) == crc_register(b, bytes),
    ensures
        a == b,
    decreases bytes.len(),
{
    if bytes.len() > 0 {
        let front = bytes.drop_last();
        let byte = bytes.last() as u32;
        let x = crc_register(a, front);
        let y = crc_register(b, front);
        lemma_bits_injective(x ^ byte, y ^ byte, 8);
        assert(x == y) by (bit_vector)
            requires
                x ^ byte == y ^ byte,
        ;
        lemma_register_injective(a, b, front);
    }
}

/// A change within four bytes in a row always changes the checksum.
pub proof fn law_checksum_tells_changes(a: Seq<u8>, b: Seq<u8>, at: int)
    requires
        a.len() == b.len(),
        0 <= at,
        at + 4 <= a.len(),
        forall|i: int| 0 <= i < a.len() && !(at <= i < at + 4) ==> #[trigger] a[i] == b[i],
        a != b,
    ensures
        crc32c(a) != crc32c(b),
{
    if crc32c(a) == crc32c(b) {
        let start = 0xFFFF_FFFFu32;
        let x = crc_register(start, a);
        let y = crc_register(start, b);
        assert(x == y) by (bit_vector)
            requires
                !x == !y,
        ;
        let (a2, b2) = (a.skip(at), b.skip(at));
        lemma_register_parts(start, a, at);
        lemma_register_parts(start, b, at);
        assert(a.take(at) =~= b.take(at));
        let crc = crc_register(start, a.take(at));
        lemma_register_parts(crc, a2, 4);
        lemma_register_parts(crc, b2, 4);
        assert(a2.skip(4) =~= b2.skip(4));
        lemma_register_injective(
            crc_register(crc, a2.take(4)),
            crc_register(crc, b2.take(4)),
            a2.skip(4),
        );
        lemma_word_injective(crc, a2.take(4), b2.take(4));
        assert forall|i: int| 0 <= i < a.len() implies a[i] == b[i] by {
            if at <= i < at + 4 {
                assert(a2.take(4)[i - at] == b2.take(4)[i - at]);
            }
        }
        assert(a =~= b);
    }
}

} // verus!
