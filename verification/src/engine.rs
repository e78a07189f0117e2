//! The storage engine without its files.
//!
//! [`Kosa`] keeps track of the slots and turns records into blocks and back. The caller carries
//! the blocks to the storage and fetches them from there.
use crate::bitmap::page::{page_is_zero, Page, SLOTS_PER_PAGE};
use crate::bitmap::row::SLOTS_PER_ROW;
use crate::bitmap::simd::SIMD;
use crate::bitmap::slots::{capacity, free_slots, has_room, in_one_row, run_freed, run_taken};
use crate::bitmap::{full_row_counters, is_init_page, is_pick, BitMap};
use crate::block::{
    block_count, block_views, decode_record, encode_record, law_decode_encode_record,
    lemma_block_count, slice_views, BlockCodec, HEADER_SIZE,
};
use crate::buffer_size::buffer_bytes;
use frozen_core::utils::BufferSize;
use vstd::prelude::*;
use vstd::set_lib::set_int_range;

verus! {

/// `std::path::PathBuf`, a path that is only handed on.
#[verifier::external_type_specification]
#[verifier::external_body]
pub struct ExPathBuf(std::path::PathBuf);

/// All the available configurations for [`Kosa`].
#[derive(Debug)]
pub struct KosaCfg {
    /// The directory in which the storage files (`data` and `bmap`) are kept.
    pub path: std::path::PathBuf,
    /// Size of a block.
    pub buffer_size: BufferSize,
    /// For how many blocks there is to be a slot from the start.
    pub initial_available_buffers: usize,
    /// The time between two syncs of the storage files.
    pub flush_duration: std::time::Duration,
    /// How many bytes of blocks may be in memory at a time.
    pub max_memory: usize,
}

/// The pages of a bitmap with a slot for each of `buffers` blocks: as few as hold them, and at
/// least one.
pub open spec fn pages_for(buffers: int) -> int {
    if buffers == 0 {
        1
    } else {
        (buffers + SLOTS_PER_PAGE - 1) / SLOTS_PER_PAGE as int
    }
}

/// How many pages a new bitmap gets.
pub fn init_pages(buffers: usize) -> (pages: usize)
    requires
        buffers + SLOTS_PER_PAGE <= usize::MAX,
    ensures
        pages == pages_for(buffers as int),
        pages >= 1,
        pages * SLOTS_PER_PAGE >= buffers,
        buffers > 0 ==> (pages - 1) * SLOTS_PER_PAGE < buffers,
        pages * SLOTS_PER_PAGE <= usize::MAX,
{
    if buffers < SLOTS_PER_PAGE {
        1
    } else {
        (buffers + SLOTS_PER_PAGE - 1) / SLOTS_PER_PAGE
    }
}

/// The slots of a storage and the form of its blocks.
#[derive(Debug)]
pub struct Kosa {
    bmap: BitMap,
    codec: BlockCodec,
}

impl Kosa {
    /// The bitmap of the slots.
    pub closed spec fn bmap(&self) -> BitMap {
        self.bmap
    }

    /// The size of a block.
    pub closed spec fn buf_size(&self) -> int {
        self.codec.buf_size()
    }

    /// How many blocks a record takes.
    pub open spec fn blocks_of(&self, record: Seq<u8>) -> int {
        block_count(record.len() as int, self.buf_size() - HEADER_SIZE)
    }

    /// The bitmap is well formed and so are the blocks.
    pub open spec fn wf(&self) -> bool {
        &&& self.bmap().wf()
        &&& HEADER_SIZE <= self.buf_size() <= 16384
        &&& self.buf_size() % 8 == 0
    }

    /// A storage in which every slot is free.
    pub fn new(cfg: &KosaCfg, simd: SIMD) -> (engine: Kosa)
        requires
            cfg.initial_available_buffers + SLOTS_PER_PAGE <= usize::MAX,
        ensures
            engine.wf(),
            engine.buf_size() == buffer_bytes(cfg.buffer_size),
            engine.bmap()@ == Set::<int>::empty(),
            engine.bmap().pages().len() == pages_for(cfg.initial_available_buffers as int),
            forall|p: int|
                0 <= p < engine.bmap().pages().len() ==> page_is_zero(
                    #[trigger] engine.bmap().pages()[p],
                ),
            engine.bmap().next_page() == 0,
            engine.bmap().capacity() >= cfg.initial_available_buffers,
    {
        let bmap = BitMap::new(simd, init_pages(cfg.initial_available_buffers));
        Kosa { bmap, codec: BlockCodec::new(cfg.buffer_size) }
    }

    /// The storage whose bitmap is kept in `pages`.
    pub fn open(cfg: &KosaCfg, simd: SIMD, pages: Vec<Page>) -> (engine: Kosa)
        requires
            forall|p: int| 0 <= p < pages@.len() ==> (#[trigger] pages@[p]).wf(),
            capacity(pages@) <= usize::MAX,
        ensures
            engine.wf(),
            engine.buf_size() == buffer_bytes(cfg.buffer_size),
            engine.bmap().pages() == pages@,
            is_init_page(full_row_counters(pages@), engine.bmap().next_page()),
    {
        let bmap = BitMap::open(simd, pages);
        Kosa { bmap, codec: BlockCodec::new(cfg.buffer_size) }
    }

    /// Takes slots for a record and returns its blocks, the slot of the first block and the
    /// number of blocks. The blocks belong in that slot and those that follow it.
    ///
    /// `None` is returned exactly when no row has room for the blocks; then nothing changes.
    pub fn write(&mut self, src: &[u8]) -> (r: Option<(Vec<Vec<u8>>, u64, u64)>)
        requires
            old(self).wf(),
            old(self).buf_size() > HEADER_SIZE,
            src@.len() >= 1,
            old(self).blocks_of(src@) <= SLOTS_PER_ROW,
        ensures
            final(self).wf(),
            final(self).buf_size() == old(self).buf_size(),
            final(self).bmap().capacity() == old(self).bmap().capacity(),
            match r {
                Some((blocks, slot_index, n)) => {
                    &&& block_views(blocks@) == encode_record(src@, old(self).buf_size())
                    &&& n == old(self).blocks_of(src@)
                    &&& is_pick(
                        old(self).bmap().pages(),
                        old(self).bmap().next_page(),
                        n as int,
                        slot_index as int,
                    )
                    &&& in_one_row(old(self).bmap().capacity(), slot_index as int, n as int)
                    &&& free_slots(old(self).bmap()@, slot_index as int, n as int)
                    &&& final(self).bmap()@ == old(self).bmap()@.union(
                        set_int_range(slot_index as int, slot_index + n),
                    )
                    &&& run_taken(
                        old(self).bmap().pages(),
                        final(self).bmap().pages(),
                        slot_index as int,
                        n as int,
                    )
                    &&& final(self).bmap().next_page() == slot_index as int / SLOTS_PER_PAGE as int
                },
                None => {
                    &&& !has_room(
                        old(self).bmap()@,
                        old(self).bmap().capacity(),
                        old(self).blocks_of(src@),
                    )
                    &&& final(self).bmap().pages() == old(self).bmap().pages()
                    &&& final(self).bmap().next_page() == old(self).bmap().next_page()
                },
            },
            r is Some <==> has_room(
                old(self).bmap()@,
                old(self).bmap().capacity(),
                old(self).blocks_of(src@),
            ),
    {
        let blocks: Vec<Vec<u8>> = self.codec.encode(src);
        let required: usize = self.codec.required(src.len());
        proof {
            lemma_block_count(src@.len() as int, self.buf_size() - HEADER_SIZE);
        }
        match self.bmap.allocate(required) {
            Some(slot_index) => Some((blocks, slot_index as u64, required as u64)),
            None => None,
        }
    }

    /// The record that `blocks` hold, as they were fetched from the slots of a record.
    ///
    /// `None` is returned exactly when the checksum of a block is wrong.
    pub fn read(&self, blocks: &[&[u8]]) -> (r: Option<Vec<u8>>)
        requires
            self.wf(),
            forall|i: int|
                0 <= i < blocks@.len() ==> (#[trigger] blocks@[i])@.len() == self.buf_size(),
        ensures
            match r {
                Some(record) => decode_record(slice_views(blocks@)) == Some(record@),
                None => decode_record(slice_views(blocks@)) is None,
            },
    {
        self.codec.decode(blocks)
    }

    /// Frees the `n` slots from `slot_index` on, which a record took.
    pub fn delete(&mut self, slot_index: u64, n: usize)
        requires
            old(self).wf(),
            1 <= n,
            in_one_row(old(self).bmap().capacity(), slot_index as int, n as int),
        ensures
            final(self).wf(),
            final(self).buf_size() == old(self).buf_size(),
            final(self).bmap().capacity() == old(self).bmap().capacity(),
            final(self).bmap().next_page() == old(self).bmap().next_page(),
            final(self).bmap()@ == old(self).bmap()@.difference(
                set_int_range(slot_index as int, slot_index + n),
            ),
            run_freed(
                old(self).bmap().pages(),
                final(self).bmap().pages(),
                slot_index as int,
                n as int,
            ),
            has_room(final(self).bmap()@, final(self).bmap().capacity(), n as int),
    {
        self.bmap.free(slot_index as usize, n);
    }
}

/// The storage after `blocks` were put in the slots from `slot` on.
pub open spec fn stored(
    disk: spec_fn(int) -> Seq<u8>,
    slot: int,
    blocks: Seq<Seq<u8>>,
) -> spec_fn(int) -> Seq<u8> {
    |s: int|
        if slot <= s < slot + blocks.len() {
            blocks[s - slot]
        } else {
            disk(s)
        }
}

/// What the `n` slots from `slot` on hold.
pub open spec fn fetched(disk: spec_fn(int) -> Seq<u8>, slot: int, n: int) -> Seq<Seq<u8>> {
    Seq::new(n as nat, |i: int| disk(slot + i))
}

/// The storage holds a record at `slot`: its slots are among the `used` ones, and what they hold
/// stands for the record.
pub open spec fn holds(
    disk: spec_fn(int) -> Seq<u8>,
    used: Set<int>,
    buf_size: int,
    slot: int,
    record: Seq<u8>,
) -> bool {
    let n = block_count(record.len() as int, buf_size - HEADER_SIZE);
    &&& set_int_range(slot, slot + n).subset_of(used)
    &&& decode_record(fetched(disk, slot, n)) == Some(record)
}

/// What was written is read: once the blocks of a record are in the slots that it took, the
/// storage holds the record there.
pub proof fn law_read_gives_what_was_written(
    disk: spec_fn(int) -> Seq<u8>,
    used: Set<int>,
    buf_size: int,
    slot: int,
    record: Seq<u8>,
)
    requires
        HEADER_SIZE < buf_size <= 16384,
    ensures
        ({
            let blocks = encode_record(record, buf_size);
            holds(
                stored(disk, slot, blocks),
                used.union(set_int_range(slot, slot + blocks.len())),
                buf_size,
                slot,
                record,
            )
        }),
{
    let blocks = encode_record(record, buf_size);
    lemma_block_count(record.len() as int, buf_size - HEADER_SIZE);
    law_decode_encode_record(record, buf_size);
    assert(fetched(stored(disk, slot, blocks), slot, blocks.len() as int) =~= blocks);
}

/// A write leaves all other records as they were: putting blocks in free slots changes no record
/// that the storage holds.
pub proof fn law_write_keeps_records(
    disk: spec_fn(int) -> Seq<u8>,
    used: Set<int>,
    buf_size: int,
    slot: int,
    blocks: Seq<Seq<u8>>,
    other: int,
    record: Seq<u8>,
)
    requires
        HEADER_SIZE < buf_size,
        free_slots(used, slot, blocks.len() as int),
        holds(disk, used, buf_size, other, record),
    ensures
        holds(
            stored(disk, slot, blocks),
            used.union(set_int_range(slot, slot + blocks.len())),
            buf_size,
            other,
            record,
        ),
{
    let n = block_count(record.len() as int, buf_size - HEADER_SIZE);
    let after = stored(disk, slot, blocks);
    lemma_block_count(record.len() as int, buf_size - HEADER_SIZE);
    assert forall|i: int| 0 <= i < n implies #[trigger] fetched(after, other, n)[i] == fetched(
        disk,
        other,
        n,
    )[i] by {
        assert(set_int_range(other, other + n).contains(other + i));
        assert(used.contains(other + i));
    }
    assert(fetched(after, other, n) =~= fetched(disk, other, n));
}

/// A delete leaves all other records as they were: freeing slots that a record does not take
/// changes nothing of it.
pub proof fn law_delete_keeps_records(
    disk: spec_fn(int) -> Seq<u8>,
    used: Set<int>,
    buf_size: int,
    slot: int,
    n: int,
    other: int,
    record: Seq<u8>,
)
    requires
        holds(disk, used, buf_size, other, record),
        set_int_range(slot, slot + n).disjoint(
            set_int_range(
                other,
                other + block_count(record.len() as int, buf_size - HEADER_SIZE),
            ),
        ),
    ensures
        holds(
            disk,
            used.difference(set_int_range(slot, slot + n)),
            buf_size,
            other,
            record,
        ),
{
}

} // verus!
