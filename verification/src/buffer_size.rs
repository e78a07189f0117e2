//! The sizes that a storage block can have, as `frozen_core` knows them.
use frozen_core::utils::BufferSize;
use vstd::prelude::*;

verus! {

/// `frozen_core::utils::BufferSize`, whose variants Verus reads from its definition.
#[verifier::external_type_specification]
pub struct ExBufferSize(frozen_core::utils::BufferSize);

/// The number of bytes in a block of the given size.
pub open spec fn buffer_bytes(size: BufferSize) -> usize {
    match size {
        BufferSize::S8 => 8,
        BufferSize::S16 => 16,
        BufferSize::S32 => 32,
        BufferSize::S64 => 64,
        BufferSize::S128 => 128,
        BufferSize::S256 => 256,
        BufferSize::S512 => 512,
        BufferSize::S1024 => 1024,
        BufferSize::S2048 => 2048,
        BufferSize::S4096 => 4096,
        BufferSize::S8192 => 8192,
        BufferSize::S16384 => 16384,
    }
}

/// `frozen_core::utils::BufferSize::bytes` returns the value of the variant, which is the number
/// of bytes that its name tells.
pub assume_specification[ frozen_core::utils::BufferSize::bytes ](
    size: frozen_core::utils::BufferSize,
) -> (bytes: usize)
    ensures
        bytes == buffer_bytes(size),
;

} // verus!
