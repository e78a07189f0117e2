//! Kosa is a page-based storage engine with fire-and-forget durability semantics.
//!
//! A record is cut into blocks of one size, each with a checksum of its own, and the blocks are
//! kept in neighbouring slots of a file. This library decides which slots a record takes, what its
//! blocks hold and what record some blocks stand for.
pub mod bitmap;
pub mod block;
pub mod block_laws;
pub mod buffer_size;
pub mod checksum;
pub mod engine;
pub mod engine_laws;
pub mod hints;

pub use crate::engine::{Kosa, KosaCfg};
pub use frozen_core::utils::BufferSize;
