//! What the storage engine does, in plain bytes and bits.
//!
//! The laws speak of the bytes of blocks and the words of pages themselves. A page has 1792 slots
//! in seven rows of 256; a block starts with its checksum in bytes `0..4` and the length of its
//! chunk in bytes `4..8`, both with the lowest byte first, and the chunk starts at byte 8.
use crate::bitmap::full_row_counters;
use crate::bitmap::map_laws::{
    lemma_freed_bit, lemma_pick_is_first, lemma_picked_bit, lemma_room_at, lemma_taken_bit,
};
use crate::bitmap::page::{page_is_zero, page_words, Page};
use crate::bitmap::page_laws::law_row_word_is_stored_behind_the_bookkeeping;
use crate::bitmap::simd::SIMD;
use crate::block::{
    block_views, law_decode_encode_record, lemma_block_count, slice_views, BlockCodec,
};
use crate::block_laws::{
    lemma_read_byte, lemma_record_byte, lemma_right_checksums, lemma_wrong_checksum,
};
use crate::checksum::crc32c;
use crate::engine::{init_pages, Kosa, KosaCfg};
use frozen_core::utils::BufferSize;
use vstd::prelude::*;

verus! {

/// A block has as many bytes as the name of its size tells.
pub proof fn law_block_has_the_configured_size(size: BufferSize, codec: BlockCodec)
    requires
        call_ensures(BlockCodec::new, (size,), codec),
    ensures
        codec.wf(),
        codec.buf_size() == match size {
            BufferSize::S8 => 8int,
            BufferSize::S16 => 16,
            BufferSize::S32 => 32,
            BufferSize::S64 => 64,
            BufferSize::S128 => 128,
            BufferSize::S256 => 256,
            BufferSize::S512 => 512,
            BufferSize::S1024 => 1024,
            BufferSize::S2048 => 2048,
            BufferSize::S4096 => 4096,
            BufferSize::S8192 => 8192,
            BufferSize::S16384 => 16384,
        },
{
}

/// A bitmap gets as few pages as have a slot for each buffer, and at least one.
pub proof fn law_as_few_pages_as_hold_the_buffers(buffers: usize, pages: usize)
    requires
        buffers + 1792 <= usize::MAX,
        call_ensures(init_pages, (buffers,), pages),
    ensures
        1 <= pages,
        buffers <= 1792 * pages,
        pages > 1 ==> 1792 * (pages - 1) < buffers,
{
}

/// A new storage has blocks of the configured size, as few pages as have a slot for each of the
/// configured buffers, and at least one; every word of them is zero.
pub proof fn law_new_storage_is_empty(
    cfg: KosaCfg,
    simd: SIMD,
    engine: Kosa,
    codec: BlockCodec,
    p: int,
    k: int,
    w: int,
)
    requires
        cfg.initial_available_buffers + 1792 <= usize::MAX,
        call_ensures(Kosa::new, (&cfg, simd), engine),
        call_ensures(BlockCodec::new, (cfg.buffer_size,), codec),
        0 <= p < engine.bmap().pages().len(),
        0 <= k < 7,
        0 <= w < 4,
    ensures
        engine.wf(),
        engine.buf_size() == codec.buf_size(),
        cfg.initial_available_buffers <= 1792 * engine.bmap().pages().len(),
        engine.bmap().pages().len() > 1 ==> 1792 * (engine.bmap().pages().len() - 1)
            < cfg.initial_available_buffers,
        engine.bmap().next_page() == 0,
        engine.bmap().pages()[p].rows@[k]@[w] == 0,
        engine.bmap().pages()[p].meta.current_word_ptr == 0,
        engine.bmap().pages()[p].meta.full_rows_counter == 0,
{
    let page = engine.bmap().pages()[p];
    law_row_word_is_stored_behind_the_bookkeeping(page, k, w);
    assert(page_is_zero(page));
    assert(page_words(page)[4 + 4 * k + w] == 0);
    assert(page_words(page)[0] == 0);
    assert(page_words(page)[1] == 0);
}

/// A new storage has at least one page.
pub proof fn law_new_storage_has_a_page(cfg: KosaCfg, simd: SIMD, engine: Kosa)
    requires
        cfg.initial_available_buffers + 1792 <= usize::MAX,
        call_ensures(Kosa::new, (&cfg, simd), engine),
    ensures
        engine.bmap().pages().len() >= 1,
{
}

/// A storage that is opened keeps every page as it is, has blocks of the configured size, and
/// searches first the first page that counts fewer than seven full rows.
pub proof fn law_opened_storage_goes_on(
    cfg: KosaCfg,
    simd: SIMD,
    pages: Vec<Page>,
    engine: Kosa,
    codec: BlockCodec,
    q: int,
)
    requires
        call_ensures(Kosa::open, (&cfg, simd, pages), engine),
        call_ensures(BlockCodec::new, (cfg.buffer_size,), codec),
        0 <= q < pages@.len(),
    ensures
        engine.wf(),
        engine.bmap().pages() == pages@,
        engine.buf_size() == codec.buf_size(),
        pages@[q].meta.full_rows_counter < 7 ==> {
            &&& 0 <= engine.bmap().next_page() <= q
            &&& pages@[engine.bmap().next_page()].meta.full_rows_counter < 7
        },
        (forall|p: int| 0 <= p < pages@.len() ==> (#[trigger] pages@[p]).meta.full_rows_counter >= 7)
            ==> engine.bmap().next_page() == 0,
{
    let counters = full_row_counters(pages@);
    assert(counters[q] == pages@[q].meta.full_rows_counter);
    if forall|p: int| 0 <= p < pages@.len() ==> (#[trigger] pages@[p]).meta.full_rows_counter >= 7 {
        assert forall|p: int| 0 <= p < counters.len() implies #[trigger] counters[p] >= 7 by {
            assert(pages@[p].meta.full_rows_counter >= 7);
        }
    }
}

/// A codec is well formed exactly when its blocks have a header, are no larger than 16384 bytes and
/// are a whole number of 8-byte words; an engine exactly when that holds of its blocks and its
/// bitmap is well formed.
pub proof fn law_well_formed_blocks_are_whole_words(codec: BlockCodec, engine: Kosa)
    ensures
        codec.wf() <==> 8 <= codec.buf_size() <= 16384 && codec.buf_size() % 8 == 0,
        engine.wf() <==> engine.bmap().wf() && 8 <= engine.buf_size() <= 16384 && engine.buf_size()
            % 8 == 0,
{
}

/// A record with bytes, but with no more than a row of blocks holds, takes 1 to 256 blocks.
proof fn lemma_blocks_of(engine: Kosa, record: Seq<u8>)
    requires
        engine.buf_size() > 8,
        1 <= record.len() <= 256 * (engine.buf_size() - 8),
    ensures
        1 <= engine.blocks_of(record) <= 256,
{
    let room = engine.buf_size() - 8;
    let n = engine.blocks_of(record);
    lemma_block_count(record.len() as int, room);
    assert(0 <= (n - 1) * room < record.len());
    assert(n <= 256) by (nonlinear_arith)
        requires
            (n - 1) * room < 256 * room,
            1 <= room,
    ;
}

/// Every record with bytes, but with no more than a row of blocks holds, can be written; every run
/// within a row can be deleted; and blocks of the right size can be read.
pub proof fn law_engine_takes_every_call(
    engine: &mut Kosa,
    src: &[u8],
    slot: u64,
    n: usize,
    blocks: &[&[u8]],
)
    requires
        old(engine).wf(),
    ensures
        old(engine).buf_size() > 8 && 1 <= src@.len() <= 256 * (old(engine).buf_size() - 8)
            ==> call_requires(Kosa::write, (engine, src)),
        1 <= n && slot % 256 + n <= 256 && slot + n <= 1792 * old(engine).bmap().pages().len()
            ==> call_requires(Kosa::delete, (engine, slot, n)),
        (forall|i: int|
            0 <= i < blocks@.len() ==> (#[trigger] blocks@[i])@.len() == old(engine).buf_size())
            ==> call_requires(Kosa::read, (&*old(engine), blocks)),
{
    if old(engine).buf_size() > 8 && 1 <= src@.len() <= 256 * (old(engine).buf_size() - 8) {
        lemma_blocks_of(*old(engine), src@);
    }
}

/// The blocks that a write hands out: there are as few as hold the record, and as many as are
/// told; byte `8 + j` of block `i` is byte `i * (buf_size - 8) + j` of the record, or zero where
/// the record has ended; bytes `4..8` tell how many bytes of the record are in the block, and bytes
/// `0..4` the checksum of the bytes from 8 on.
pub proof fn law_write_puts_each_byte_in_its_block(
    engine: &mut Kosa,
    src: &[u8],
    blocks: Vec<Vec<u8>>,
    slot: u64,
    n: u64,
    i: int,
    j: int,
)
    requires
        old(engine).wf(),
        old(engine).buf_size() > 8,
        1 <= src@.len() <= 256 * (old(engine).buf_size() - 8),
        call_ensures(Kosa::write, (engine, src), Some((blocks, slot, n))),
        0 <= i < n,
        0 <= j < old(engine).buf_size() - 8,
    ensures
        blocks@.len() == n,
        src@.len() <= n * (old(engine).buf_size() - 8),
        (n - 1) * (old(engine).buf_size() - 8) < src@.len(),
        ({
            let block = blocks@[i]@;
            let room = old(engine).buf_size() - 8;
            let at = i * room;
            &&& block.len() == old(engine).buf_size()
            &&& block[8 + j] == if at + j < src@.len() {
                src@[at + j]
            } else {
                0
            }
            &&& block[4] + 256 * block[5] + 65536 * block[6] + 16777216 * block[7] == if src@.len()
                - at < room {
                src@.len() - at
            } else {
                room
            }
            &&& block[0] + 256 * block[1] + 65536 * block[2] + 16777216 * block[3] == crc32c(
                block.skip(8),
            )
        }),
{
    lemma_blocks_of(*old(engine), src@);
    assert(block_views(blocks@).len() == n);
    lemma_record_byte(src@, old(engine).buf_size(), blocks@, i, j);
}

/// A write with room in row `k` of page `p` succeeds. Its blocks go to the first page with room,
/// from the page on at which the search starts and then from page 0 on; there to the first row with
/// room; and there to the least run from the first slot of the current word on, or if there is none
/// to the least one below that slot.
pub proof fn law_write_goes_to_the_first_run(
    engine: &mut Kosa,
    src: &[u8],
    n: int,
    r: Option<(Vec<Vec<u8>>, u64, u64)>,
    p: int,
    k: int,
    b: int,
)
    requires
        old(engine).wf(),
        old(engine).buf_size() > 8,
        1 <= src@.len(),
        src@.len() <= n * (old(engine).buf_size() - 8),
        (n - 1) * (old(engine).buf_size() - 8) < src@.len(),
        1 <= n <= 256,
        call_ensures(Kosa::write, (engine, src), r),
        0 <= p < old(engine).bmap().pages().len(),
        0 <= k < 7,
        0 <= b,
        b + n <= 256,
        forall|i: int|
            b <= i < b + n ==> (#[trigger] old(engine).bmap().pages()[p].rows@[k]@[i / 64] >> ((i
                % 64) as u64)) & 1 != 1,
    ensures
        r is Some,
        (r->0).2 == n,
        ({
            let slot = (r->0).1;
            let from = old(engine).bmap().next_page();
            &&& p >= from ==> 1792 * from <= slot < 1792 * p + 1792
            &&& p < from ==> slot >= 1792 * from || slot < 1792 * p + 1792
            &&& 1792 * p <= slot < 1792 * p + 1792 ==> slot < 1792 * p + 256 * k + 256
            &&& 1792 * p + 256 * k <= slot < 1792 * p + 256 * k + 256 ==> {
                let at = slot - 1792 * p - 256 * k;
                let first = 64 * old(engine).bmap().pages()[p].meta.current_word_ptr;
                &&& b >= first ==> first <= at <= b
                &&& b < first ==> at >= first || at <= b
            }
        }),
{
    let room = old(engine).buf_size() - 8;
    let m = old(engine).blocks_of(src@);
    lemma_block_count(src@.len() as int, room);
    assert(0 <= (m - 1) * room < src@.len());
    assert(m == n) by (nonlinear_arith)
        requires
            src@.len() <= n * room,
            (n - 1) * room < src@.len(),
            src@.len() <= m * room,
            (m - 1) * room < src@.len(),
            1 <= room,
    ;
    let pages = old(engine).bmap().pages();
    lemma_room_at(pages, n, p, k, b);
    lemma_pick_is_first(pages, old(engine).bmap().next_page(), n, (r->0).1 as int, p, k, b);
}

/// A write takes the slots of its blocks, all of them in one row and all of them free before, and
/// leaves every other slot alone; all other pages stay as they are. The next search starts at the
/// page of the blocks, in the word after the one in which they start.
pub proof fn law_write_takes_only_free_slots(
    engine: &mut Kosa,
    src: &[u8],
    blocks: Vec<Vec<u8>>,
    slot: u64,
    n: u64,
    p: int,
    k: int,
    i: int,
)
    requires
        old(engine).wf(),
        old(engine).buf_size() > 8,
        1 <= src@.len() <= 256 * (old(engine).buf_size() - 8),
        call_ensures(Kosa::write, (engine, src), Some((blocks, slot, n))),
        0 <= p < old(engine).bmap().pages().len(),
        0 <= k < 7,
        0 <= i < 256,
    ensures
        final(engine).wf(),
        final(engine).buf_size() == old(engine).buf_size(),
        final(engine).bmap().pages().len() == old(engine).bmap().pages().len(),
        slot < 1792 * old(engine).bmap().pages().len(),
        slot % 256 + n <= 256,
        slot <= 1792 * p + 256 * k + i < slot + n ==> (old(engine).bmap().pages()[p].rows@[k]@[i
            / 64] >> ((i % 64) as u64)) & 1 != 1,
        (final(engine).bmap().pages()[p].rows@[k]@[i / 64] >> ((i % 64) as u64)) & 1 == 1 <==> (slot
            <= 1792 * p + 256 * k + i < slot + n || (old(engine).bmap().pages()[p].rows@[k]@[i / 64]
            >> ((i % 64) as u64)) & 1 == 1),
        p != slot as int / 1792 ==> final(engine).bmap().pages()[p] == old(
            engine,
        ).bmap().pages()[p],
        final(engine).bmap().pages()[p].meta.padding == old(engine).bmap().pages()[p].meta.padding,
        final(engine).bmap().pages()[p].wf(),
        final(engine).bmap().next_page() == slot as int / 1792,
        final(engine).bmap().pages()[slot as int / 1792].meta.current_word_ptr == (slot as int % 256
            / 64 + 1) % 4,
{
    let before = old(engine).bmap().pages();
    let after = final(engine).bmap().pages();
    lemma_blocks_of(*old(engine), src@);
    lemma_taken_bit(before, after, slot as int, n as int, p, k, i);
    if slot <= 1792 * p + 256 * k + i < slot + n {
        lemma_picked_bit(
            before,
            old(engine).bmap().next_page(),
            n as int,
            slot as int,
            p,
            k,
            i,
        );
    }
}

/// A write that fails leaves every page as it is.
pub proof fn law_failed_write_changes_nothing(engine: &mut Kosa, src: &[u8])
    requires
        call_ensures(Kosa::write, (engine, src), None),
    ensures
        final(engine).bmap().pages() == old(engine).bmap().pages(),
        final(engine).bmap().next_page() == old(engine).bmap().next_page(),
        final(engine).buf_size() == old(engine).buf_size(),
{
}

/// What was written is read: from blocks that hold what a write handed out, a read gives back the
/// record.
pub proof fn law_read_returns_what_was_written(
    engine: &mut Kosa,
    src: &[u8],
    blocks: Vec<Vec<u8>>,
    slot: u64,
    n: u64,
    later: Kosa,
    fetched: &[&[u8]],
    r: Option<Vec<u8>>,
)
    requires
        old(engine).wf(),
        old(engine).buf_size() > 8,
        1 <= src@.len() <= 256 * (old(engine).buf_size() - 8),
        call_ensures(Kosa::write, (engine, src), Some((blocks, slot, n))),
        call_ensures(Kosa::read, (&later, fetched), r),
        fetched@.len() == n,
        forall|i: int| 0 <= i < n ==> (#[trigger] fetched@[i])@ == blocks@[i]@,
    ensures
        r is Some,
        r->0@ == src@,
{
    lemma_blocks_of(*old(engine), src@);
    assert(block_views(blocks@).len() == n);
    assert(slice_views(fetched@) =~= block_views(blocks@));
    law_decode_encode_record(src@, old(engine).buf_size());
}

/// One block with a wrong checksum is enough for a read to give nothing, whatever the other blocks
/// hold.
pub proof fn law_read_refuses_a_wrong_checksum(
    engine: Kosa,
    blocks: &[&[u8]],
    r: Option<Vec<u8>>,
    i: int,
)
    requires
        call_ensures(Kosa::read, (&engine, blocks), r),
        0 <= i < blocks@.len(),
        blocks@[i]@.len() >= 8,
        blocks@[i]@[0] + 256 * blocks@[i]@[1] + 65536 * blocks@[i]@[2] + 16777216 * blocks@[i]@[3]
            != crc32c(blocks@[i]@.skip(8)),
    ensures
        r is None,
{
    lemma_wrong_checksum(blocks@, i);
}

/// A read of blocks with right checksums gives a record, and gives the same as the codec does.
pub proof fn law_read_accepts_right_checksums(
    engine: Kosa,
    codec: BlockCodec,
    blocks: &[&[u8]],
    r: Option<Vec<u8>>,
    s: Option<Vec<u8>>,
)
    requires
        call_ensures(Kosa::read, (&engine, blocks), r),
        call_ensures(BlockCodec::decode, (&codec, blocks), s),
        forall|i: int|
            0 <= i < blocks@.len() ==> (#[trigger] blocks@[i])@.len() >= 8 && blocks@[i]@[0] + 256
                * blocks@[i]@[1] + 65536 * blocks@[i]@[2] + 16777216 * blocks@[i]@[3] == crc32c(
                blocks@[i]@.skip(8),
            ),
    ensures
        r is Some,
        s is Some,
        r->0@ == s->0@,
{
    lemma_right_checksums(blocks@);
}

/// Where every block but the last is filled, byte `j` of the chunk in block `i` is byte
/// `i * (buf_size - 8) + j` of what a read gives.
pub proof fn law_read_puts_each_byte_in_its_place(
    engine: Kosa,
    blocks: &[&[u8]],
    r: Option<Vec<u8>>,
    i: int,
    j: int,
)
    requires
        call_ensures(Kosa::read, (&engine, blocks), r),
        r is Some,
        8 <= engine.buf_size(),
        forall|k: int|
            0 <= k < blocks@.len() ==> (#[trigger] blocks@[k])@.len() == engine.buf_size(),
        forall|k: int|
            0 <= k < blocks@.len() - 1 ==> (#[trigger] blocks@[k])@[4] + 256 * blocks@[k]@[5] + 65536
                * blocks@[k]@[6] + 16777216 * blocks@[k]@[7] == engine.buf_size() - 8,
        0 <= i < blocks@.len(),
        0 <= j < engine.buf_size() - 8,
        j < blocks@[i]@[4] + 256 * blocks@[i]@[5] + 65536 * blocks@[i]@[6] + 16777216
            * blocks@[i]@[7],
    ensures
        0 <= i * (engine.buf_size() - 8) + j < r->0@.len(),
        r->0@[i * (engine.buf_size() - 8) + j] == blocks@[i]@[8 + j],
{
    lemma_read_byte(blocks@, engine.buf_size(), i, j);
}

/// A delete gives back the slots of its run and leaves every other slot alone; all other pages stay
/// as they are.
pub proof fn law_delete_frees_its_slots(
    engine: &mut Kosa,
    slot: u64,
    n: usize,
    p: int,
    k: int,
    i: int,
)
    requires
        1 <= n,
        old(engine).wf(),
        slot % 256 + n <= 256,
        slot + n <= 1792 * old(engine).bmap().pages().len(),
        call_ensures(Kosa::delete, (engine, slot, n), ()),
        0 <= p < old(engine).bmap().pages().len(),
        0 <= k < 7,
        0 <= i < 256,
    ensures
        final(engine).wf(),
        final(engine).buf_size() == old(engine).buf_size(),
        final(engine).bmap().pages().len() == old(engine).bmap().pages().len(),
        (final(engine).bmap().pages()[p].rows@[k]@[i / 64] >> ((i % 64) as u64)) & 1 == 1 <==> (!(
        slot <= 1792 * p + 256 * k + i < slot + n) && (old(engine).bmap().pages()[p].rows@[k]@[i
            / 64] >> ((i % 64) as u64)) & 1 == 1),
        p != slot as int / 1792 ==> final(engine).bmap().pages()[p] == old(
            engine,
        ).bmap().pages()[p],
        final(engine).bmap().pages()[p].meta.padding == old(engine).bmap().pages()[p].meta.padding,
        final(engine).bmap().pages()[p].wf(),
        final(engine).bmap().next_page() == old(engine).bmap().next_page(),
        final(engine).bmap().pages()[slot as int / 1792].meta.current_word_ptr == (slot as int % 256
            / 64 + 1) % 4,
{
    lemma_freed_bit(
        old(engine).bmap().pages(),
        final(engine).bmap().pages(),
        slot as int,
        n as int,
        p,
        k,
        i,
    );
}

} // verus!
