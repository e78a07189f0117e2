//! What the bytes of a block are, place by place, and which blocks are read.
//!
//! The laws speak of the bytes themselves: a block starts with its checksum in bytes `0..4` and the
//! length of its chunk in bytes `4..8`, both with the lowest byte first; the chunk starts at
//! byte 8.
use crate::block::{
    block_count, block_intact, block_views, chunk_len, chunk_of, covered, decode_chunk,
    decode_record, encode_chunk, encode_record, joined, law_decode_encode_chunk, le_bytes,
    lemma_block_count, lemma_le_round_trip, slice_views, BlockCodec,
};
use crate::checksum::crc32c;
use vstd::prelude::*;

verus! {

/// A block is intact exactly when the number in its first four bytes is the checksum of its bytes
/// from 8 on.
pub proof fn law_intact_block_carries_its_checksum(block: Seq<u8>)
    requires
        block.len() >= 8,
    ensures
        block_intact(block) <==> block[0] + 256 * block[1] + 65536 * block[2] + 16777216 * block[3]
            == crc32c(block.skip(8)),
{
    assert(covered(block) =~= block.skip(8));
}

/// What is read starts with nothing: no blocks hold the empty record.
pub proof fn law_no_blocks_hold_nothing(codec: BlockCodec, blocks: &[&[u8]], r: Option<Vec<u8>>)
    requires
        call_ensures(BlockCodec::decode, (&codec, blocks), r),
        blocks@.len() == 0,
    ensures
        r is Some,
        r->0@.len() == 0,
{
}

/// A block with a wrong checksum among those that are to be read.
pub proof fn lemma_wrong_checksum(blocks: Seq<&[u8]>, i: int)
    requires
        0 <= i < blocks.len(),
        blocks[i]@.len() >= 8,
        blocks[i]@[0] + 256 * blocks[i]@[1] + 65536 * blocks[i]@[2] + 16777216 * blocks[i]@[3]
            != crc32c(blocks[i]@.skip(8)),
    ensures
        decode_record(slice_views(blocks)) is None,
{
    law_intact_block_carries_its_checksum(blocks[i]@);
    assert(slice_views(blocks)[i] == blocks[i]@);
}

/// Blocks that all have right checksums.
pub proof fn lemma_right_checksums(blocks: Seq<&[u8]>)
    requires
        forall|i: int|
            0 <= i < blocks.len() ==> (#[trigger] blocks[i])@.len() >= 8 && blocks[i]@[0] + 256
                * blocks[i]@[1] + 65536 * blocks[i]@[2] + 16777216 * blocks[i]@[3] == crc32c(
                blocks[i]@.skip(8),
            ),
    ensures
        decode_record(slice_views(blocks)) is Some,
{
    let views = slice_views(blocks);
    assert forall|i: int| 0 <= i < views.len() implies block_intact(#[trigger] views[i]) by {
        law_intact_block_carries_its_checksum(blocks[i]@);
    }
}

/// One block with a wrong checksum is enough for nothing to be read, whatever the other blocks
/// hold.
pub proof fn law_wrong_checksum_is_never_read(
    codec: BlockCodec,
    blocks: &[&[u8]],
    r: Option<Vec<u8>>,
    i: int,
)
    requires
        call_ensures(BlockCodec::decode, (&codec, blocks), r),
        0 <= i < blocks@.len(),
        blocks@[i]@.len() >= 8,
        blocks@[i]@[0] + 256 * blocks@[i]@[1] + 65536 * blocks@[i]@[2] + 16777216 * blocks@[i]@[3]
            != crc32c(blocks@[i]@.skip(8)),
    ensures
        r is None,
{
    lemma_wrong_checksum(blocks@, i);
}

/// Blocks with right checksums are read.
pub proof fn law_right_checksums_are_read(
    codec: BlockCodec,
    blocks: &[&[u8]],
    r: Option<Vec<u8>>,
)
    requires
        call_ensures(BlockCodec::decode, (&codec, blocks), r),
        forall|i: int|
            0 <= i < blocks@.len() ==> (#[trigger] blocks@[i])@.len() >= 8 && blocks@[i]@[0] + 256
                * blocks@[i]@[1] + 65536 * blocks@[i]@[2] + 16777216 * blocks@[i]@[3] == crc32c(
                blocks@[i]@.skip(8),
            ),
    ensures
        r is Some,
{
    lemma_right_checksums(blocks@);
}

/// A block adds its own chunk to what the blocks before it hold: as many of its bytes from 8 on as
/// the number in its bytes `4..8` tells, but no more than there are.
pub proof fn law_block_adds_its_chunk(
    codec: BlockCodec,
    blocks: &[&[u8]],
    more: &[&[u8]],
    r: Option<Vec<u8>>,
    s: Option<Vec<u8>>,
)
    requires
        call_ensures(BlockCodec::decode, (&codec, blocks), r),
        call_ensures(BlockCodec::decode, (&codec, more), s),
        more@.len() == blocks@.len() + 1,
        forall|i: int| 0 <= i < blocks@.len() ==> (#[trigger] more@[i])@ == blocks@[i]@,
        more@[blocks@.len() as int]@.len() >= 8,
        s is Some,
    ensures
        r is Some,
        ({
            let block = more@[blocks@.len() as int]@;
            let told = block[4] + 256 * block[5] + 65536 * block[6] + 16777216 * block[7];
            &&& s->0@.len() == r->0@.len() + if told < block.len() - 8 {
                told
            } else {
                block.len() - 8
            }
            &&& forall|j: int|
                0 <= j < s->0@.len() ==> #[trigger] s->0@[j] == if j < r->0@.len() {
                    r->0@[j]
                } else {
                    block[8 + j - r->0@.len()]
                }
        }),
{
    lemma_block_adds(blocks, more);
    let block = more@[blocks@.len() as int]@;
    let field = block.subrange(4, 8);
    assert(field[0] == block[4] && field[1] == block[5] && field[2] == block[6] && field[3]
        == block[7]);
}

/// The record of some blocks and of one more.
proof fn lemma_block_adds(blocks: &[&[u8]], more: &[&[u8]])
    requires
        more@.len() == blocks@.len() + 1,
        forall|i: int| 0 <= i < blocks@.len() ==> (#[trigger] more@[i])@ == blocks@[i]@,
        decode_record(slice_views(more@)) is Some,
    ensures
        decode_record(slice_views(blocks@)) is Some,
        decode_record(slice_views(more@))->0 == decode_record(slice_views(blocks@))->0
            + decode_chunk(more@[blocks@.len() as int]@),
{
    let views = slice_views(more@);
    assert(views.drop_last() =~= slice_views(blocks@));
    assert forall|i: int| 0 <= i < blocks@.len() implies block_intact(
        #[trigger] slice_views(blocks@)[i],
    ) by {
        assert(views[i] == slice_views(blocks@)[i]);
    }
}

proof fn lemma_joined_full(blocks: Seq<Seq<u8>>, buf_size: int)
    requires
        8 <= buf_size,
        forall|i: int|
            0 <= i < blocks.len() ==> (#[trigger] blocks[i]).len() == buf_size && chunk_len(blocks[i])
                == buf_size - 8,
    ensures
        joined(blocks).len() == blocks.len() * (buf_size - 8),
        forall|i: int, j: int|
            0 <= i < blocks.len() && 0 <= j < buf_size - 8 ==> joined(blocks)[i * (buf_size - 8) + j]
                == #[trigger] blocks[i][8 + j],
    decreases blocks.len(),
{
    let room = buf_size - 8;
    if blocks.len() > 0 {
        let front = blocks.drop_last();
        let m = front.len() as int;
        lemma_joined_full(front, buf_size);
        assert(blocks.len() * room == m * room + room) by (nonlinear_arith)
            requires
                blocks.len() == m + 1,
        ;
        let last = decode_chunk(blocks.last());
        assert(blocks.last() == blocks[m]);
        assert forall|i: int, j: int| 0 <= i < blocks.len() && 0 <= j < room implies joined(blocks)[i
            * room + j] == #[trigger] blocks[i][8 + j] by {
            if i < m {
                assert(0 <= i * room && i * room + room <= m * room) by (nonlinear_arith)
                    requires
                        0 <= i < m,
                        0 <= room,
                ;
                assert(front[i][8 + j] == blocks[i][8 + j]);
            } else {
                assert(i * room == m * room);
                assert(last[j] == blocks[m][8 + j]);
            }
        }
    } else {
        assert(0 * room == 0);
    }
}

/// A byte of a record that is read, and where it comes from.
pub proof fn lemma_read_byte(blocks: Seq<&[u8]>, buf_size: int, i: int, j: int)
    requires
        8 <= buf_size,
        decode_record(slice_views(blocks)) is Some,
        forall|k: int| 0 <= k < blocks.len() ==> (#[trigger] blocks[k])@.len() == buf_size,
        forall|k: int|
            0 <= k < blocks.len() - 1 ==> (#[trigger] blocks[k])@[4] + 256 * blocks[k]@[5] + 65536
                * blocks[k]@[6] + 16777216 * blocks[k]@[7] == buf_size - 8,
        0 <= i < blocks.len(),
        0 <= j < buf_size - 8,
        j < blocks[i]@[4] + 256 * blocks[i]@[5] + 65536 * blocks[i]@[6] + 16777216 * blocks[i]@[7],
    ensures
        0 <= i * (buf_size - 8) + j < decode_record(slice_views(blocks))->0.len(),
        decode_record(slice_views(blocks))->0[i * (buf_size - 8) + j] == blocks[i]@[8 + j],
{
    let room = buf_size - 8;
    let views = slice_views(blocks);
    let front = views.drop_last();
    assert forall|k: int| 0 <= k < front.len() implies (#[trigger] front[k]).len()
        == buf_size && chunk_len(front[k]) == room by {
        let block = blocks[k]@;
        assert(front[k] == block);
        let field = block.subrange(4, 8);
        assert(field[0] == block[4] && field[1] == block[5] && field[2] == block[6] && field[3]
            == block[7]);
    }
    lemma_joined_full(front, buf_size);
    let m = front.len() as int;
    let last = blocks[m]@;
    assert(views.last() == last);
    let field = last.subrange(4, 8);
    assert(field[0] == last[4] && field[1] == last[5] && field[2] == last[6] && field[3]
        == last[7]);
    assert(0 <= i * room && (i < m ==> i * room + room <= m * room)) by (nonlinear_arith)
        requires
            0 <= i <= m,
            0 <= room,
    ;
    if i < m {
        assert(front[i] == blocks[i]@);
        assert(joined(front)[i * room + j] == front[i][8 + j]);
    } else {
        assert(decode_chunk(last)[j] == last[8 + j]);
    }
}

/// Where every block but the last is filled, byte `j` of the chunk in block `i` is byte
/// `i * (buf_size - 8) + j` of the record that is read.
pub proof fn law_read_byte_comes_from_its_block(
    codec: BlockCodec,
    blocks: &[&[u8]],
    r: Option<Vec<u8>>,
    i: int,
    j: int,
)
    requires
        call_ensures(BlockCodec::decode, (&codec, blocks), r),
        r is Some,
        8 <= codec.buf_size(),
        forall|k: int|
            0 <= k < blocks@.len() ==> (#[trigger] blocks@[k])@.len() == codec.buf_size(),
        forall|k: int|
            0 <= k < blocks@.len() - 1 ==> (#[trigger] blocks@[k])@[4] + 256 * blocks@[k]@[5] + 65536
                * blocks@[k]@[6] + 16777216 * blocks@[k]@[7] == codec.buf_size() - 8,
        0 <= i < blocks@.len(),
        0 <= j < codec.buf_size() - 8,
        j < blocks@[i]@[4] + 256 * blocks@[i]@[5] + 65536 * blocks@[i]@[6] + 16777216
            * blocks@[i]@[7],
    ensures
        0 <= i * (codec.buf_size() - 8) + j < r->0@.len(),
        r->0@[i * (codec.buf_size() - 8) + j] == blocks@[i]@[8 + j],
{
    lemma_read_byte(blocks@, codec.buf_size(), i, j);
}

/// The number of blocks of a record is the least that has room for it.
pub proof fn law_record_takes_as_few_blocks_as_hold_it(codec: BlockCodec, len: usize, n: usize)
    requires
        codec.wf(),
        codec.buf_size() > 8,
        call_ensures(BlockCodec::required, (&codec, len), n),
    ensures
        len <= n * (codec.buf_size() - 8),
        n > 0 ==> (n - 1) * (codec.buf_size() - 8) < len,
{
    let room = codec.buf_size() - 8;
    lemma_block_count(len as int, room);
    if n > 0 {
        assert(0 <= (n - 1) * room < len);
    }
}

/// The four bytes of a number stand for it, the lowest first.
proof fn lemma_number_bytes(block: Seq<u8>, at: int, x: u32)
    requires
        0 <= at,
        at + 4 <= block.len(),
        block.subrange(at, at + 4) == le_bytes(x),
    ensures
        block[at] + 256 * block[at + 1] + 65536 * block[at + 2] + 16777216 * block[at + 3] == x,
{
    lemma_le_round_trip(x);
    let field = block.subrange(at, at + 4);
    assert(field[0] == block[at] && field[1] == block[at + 1] && field[2] == block[at + 2]
        && field[3] == block[at + 3]);
}

/// What the block that holds a chunk has in each of its places.
proof fn lemma_chunk_block(chunk: Seq<u8>, buf_size: int, block: Seq<u8>, j: int)
    requires
        8 <= buf_size <= 16384,
        chunk.len() <= buf_size - 8,
        block == encode_chunk(chunk, buf_size),
        0 <= j < buf_size - 8,
    ensures
        block.len() == buf_size,
        block[8 + j] == if j < chunk.len() {
            chunk[j]
        } else {
            0
        },
        block[4] + 256 * block[5] + 65536 * block[6] + 16777216 * block[7] == chunk.len(),
        block[0] + 256 * block[1] + 65536 * block[2] + 16777216 * block[3] == crc32c(block.skip(8)),
{
    law_decode_encode_chunk(chunk, buf_size);
    law_intact_block_carries_its_checksum(block);
    assert(block.subrange(4, 8) =~= le_bytes(chunk.len() as u32));
    lemma_number_bytes(block, 4, chunk.len() as u32);
}

/// Chunk `i` of a record in plain places.
proof fn lemma_chunk_bytes(record: Seq<u8>, room: int, i: int, j: int)
    requires
        1 <= room,
        0 <= i < block_count(record.len() as int, room),
    ensures
        0 <= i * room < record.len(),
        chunk_of(record, room, i).len() == if i * room + room < record.len() {
            room
        } else {
            record.len() - i * room
        },
        0 <= j < chunk_of(record, room, i).len() ==> chunk_of(record, room, i)[j] == record[i * room
            + j],
{
    lemma_block_count(record.len() as int, room);
    assert(0 <= i * room < record.len());
}

/// The blocks of a record, place by place.
pub proof fn lemma_record_byte(
    record: Seq<u8>,
    buf_size: int,
    blocks: Seq<Vec<u8>>,
    i: int,
    j: int,
)
    requires
        8 < buf_size <= 16384,
        block_views(blocks) == encode_record(record, buf_size),
        0 <= i < blocks.len(),
        0 <= j < buf_size - 8,
    ensures
        record.len() <= blocks.len() * (buf_size - 8),
        (blocks.len() - 1) * (buf_size - 8) < record.len(),
        ({
            let block = blocks[i]@;
            let at = i * (buf_size - 8);
            &&& block.len() == buf_size
            &&& block[8 + j] == if at + j < record.len() {
                record[at + j]
            } else {
                0
            }
            &&& block[4] + 256 * block[5] + 65536 * block[6] + 16777216 * block[7] == if record.len()
                - at < buf_size - 8 {
                record.len() - at
            } else {
                buf_size - 8
            }
            &&& block[0] + 256 * block[1] + 65536 * block[2] + 16777216 * block[3] == crc32c(
                block.skip(8),
            )
        }),
{
    let room = buf_size - 8;
    let views = block_views(blocks);
    lemma_block_count(record.len() as int, room);
    assert(views.len() == block_count(record.len() as int, room));
    assert(0 <= (blocks.len() - 1) * room < record.len());
    lemma_chunk_bytes(record, room, i, j);
    assert(views[i] == encode_chunk(chunk_of(record, room, i), buf_size));
    lemma_chunk_block(chunk_of(record, room, i), buf_size, blocks[i]@, j);
}

/// The blocks of a record: there are as few as hold it; byte `8 + j` of block `i` is byte
/// `i * (buf_size - 8) + j` of the record, or zero where the record has ended; bytes `4..8` tell
/// how many bytes of the record are in the block, and bytes `0..4` the checksum of the bytes from 8
/// on.
pub proof fn law_record_byte_is_in_its_block(
    codec: BlockCodec,
    src: &[u8],
    blocks: Vec<Vec<u8>>,
    i: int,
    j: int,
)
    requires
        codec.wf(),
        codec.buf_size() > 8,
        call_ensures(BlockCodec::encode, (&codec, src), blocks),
        0 <= i < blocks@.len(),
        0 <= j < codec.buf_size() - 8,
    ensures
        src@.len() <= blocks@.len() * (codec.buf_size() - 8),
        (blocks@.len() - 1) * (codec.buf_size() - 8) < src@.len(),
        ({
            let block = blocks@[i]@;
            let at = i * (codec.buf_size() - 8);
            &&& block.len() == codec.buf_size()
            &&& block[8 + j] == if at + j < src@.len() {
                src@[at + j]
            } else {
                0
            }
            &&& block[4] + 256 * block[5] + 65536 * block[6] + 16777216 * block[7] == if src@.len()
                - at < codec.buf_size() - 8 {
                src@.len() - at
            } else {
                codec.buf_size() - 8
            }
            &&& block[0] + 256 * block[1] + 65536 * block[2] + 16777216 * block[3] == crc32c(
                block.skip(8),
            )
        }),
{
    lemma_record_byte(src@, codec.buf_size(), blocks@, i, j);
}

/// A record without bytes takes no blocks.
pub proof fn law_empty_record_takes_no_blocks(codec: BlockCodec, src: &[u8], blocks: Vec<Vec<u8>>)
    requires
        codec.wf(),
        codec.buf_size() > 8,
        call_ensures(BlockCodec::encode, (&codec, src), blocks),
    ensures
        blocks@.len() == 0 <==> src@.len() == 0,
{
    let room = codec.buf_size() - 8;
    lemma_block_count(src@.len() as int, room);
    assert(block_views(blocks@).len() == block_count(src@.len() as int, room));
}

/// A block that is written on its own is the same, place by place, whatever was there before.
pub proof fn law_written_block_holds_its_part(
    codec: BlockCodec,
    src: &[u8],
    idx: usize,
    dst: &mut [u8],
    j: int,
)
    requires
        codec.wf(),
        codec.buf_size() > 8,
        idx * (codec.buf_size() - 8) < src@.len(),
        call_ensures(BlockCodec::encode_block, (&codec, src, idx, dst), ()),
        0 <= j < codec.buf_size() - 8,
    ensures
        ({
            let block = final(dst)@;
            let at = idx * (codec.buf_size() - 8);
            &&& block.len() == codec.buf_size()
            &&& block[8 + j] == if at + j < src@.len() {
                src@[at + j]
            } else {
                0
            }
            &&& block[4] + 256 * block[5] + 65536 * block[6] + 16777216 * block[7] == if src@.len()
                - at < codec.buf_size() - 8 {
                src@.len() - at
            } else {
                codec.buf_size() - 8
            }
            &&& block[0] + 256 * block[1] + 65536 * block[2] + 16777216 * block[3] == crc32c(
                block.skip(8),
            )
        }),
{
    let room = codec.buf_size() - 8;
    lemma_block_below_end(src@.len() as int, room, idx as int);
    lemma_chunk_bytes(src@, room, idx as int, j);
    lemma_chunk_block(chunk_of(src@, room, idx as int), codec.buf_size(), final(dst)@, j);
}

/// A block that starts before the end of a record is one of its blocks.
proof fn lemma_block_below_end(len: int, room: int, i: int)
    requires
        0 <= len,
        1 <= room,
        0 <= i,
        i * room < len,
    ensures
        i < block_count(len, room),
{
    lemma_block_count(len, room);
    let q = block_count(len, room);
    assert(i < q) by (nonlinear_arith)
        requires
            i * room < len,
            len <= q * room,
            1 <= room,
    ;
}

/// Filling a block puts its part of the record and its length in their places and leaves the
/// place of the checksum alone.
pub proof fn law_filled_block_holds_its_part(
    codec: BlockCodec,
    src: &[u8],
    idx: usize,
    dst: &mut [u8],
    j: int,
)
    requires
        codec.wf(),
        codec.buf_size() > 8,
        idx * (codec.buf_size() - 8) < src@.len(),
        old(dst)@.len() == codec.buf_size(),
        call_ensures(BlockCodec::fill_block, (&codec, src, idx, dst), ()),
        0 <= j < codec.buf_size() - 8,
    ensures
        ({
            let block = final(dst)@;
            let at = idx * (codec.buf_size() - 8);
            &&& block.len() == codec.buf_size()
            &&& block[8 + j] == if at + j < src@.len() {
                src@[at + j]
            } else {
                0
            }
            &&& block[4] + 256 * block[5] + 65536 * block[6] + 16777216 * block[7] == if src@.len()
                - at < codec.buf_size() - 8 {
                src@.len() - at
            } else {
                codec.buf_size() - 8
            }
            &&& block[0] == old(dst)@[0] && block[1] == old(dst)@[1] && block[2] == old(dst)@[2]
                && block[3] == old(dst)@[3]
        }),
{
    let room = codec.buf_size() - 8;
    let block = final(dst)@;
    lemma_block_below_end(src@.len() as int, room, idx as int);
    lemma_chunk_bytes(src@, room, idx as int, j);
    let chunk = chunk_of(src@, room, idx as int);
    assert(block.subrange(4, 8) =~= le_bytes(chunk.len() as u32));
    lemma_number_bytes(block, 4, chunk.len() as u32);
}

/// Sealing a block puts the checksum in its place and leaves every other byte alone.
pub proof fn law_sealed_block_carries_the_checksum(dst: &mut [u8], checksum: u32, j: int)
    requires
        old(dst)@.len() >= 8,
        call_ensures(BlockCodec::seal_block, (dst, checksum), ()),
        4 <= j < old(dst)@.len(),
    ensures
        final(dst)@.len() == old(dst)@.len(),
        final(dst)@[0] + 256 * final(dst)@[1] + 65536 * final(dst)@[2] + 16777216 * final(dst)@[3]
            == checksum,
        final(dst)@[j] == old(dst)@[j],
{
    assert(final(dst)@.subrange(0, 4) =~= le_bytes(checksum));
    lemma_number_bytes(final(dst)@, 0, checksum);
}

/// A block is opened exactly when it carries the given checksum. Then its chunk is appended: as
/// many of its bytes from 8 on as the number in its bytes `4..8` tells, but no more than there are.
/// What was there before stays, and nothing is appended otherwise.
pub proof fn law_opened_block_gives_its_chunk(
    block: &[u8],
    computed: u32,
    out: &mut Vec<u8>,
    intact: bool,
)
    requires
        8 <= block@.len() <= 16384,
        call_ensures(BlockCodec::open_block, (block, computed, out), intact),
    ensures
        intact <==> block@[0] + 256 * block@[1] + 65536 * block@[2] + 16777216 * block@[3]
            == computed,
        ({
            let told = block@[4] + 256 * block@[5] + 65536 * block@[6] + 16777216 * block@[7];
            let len = if !intact {
                0int
            } else if told < block@.len() - 8 {
                told
            } else {
                block@.len() - 8
            };
            &&& final(out)@.len() == old(out)@.len() + len
            &&& forall|j: int|
                0 <= j < final(out)@.len() ==> #[trigger] final(out)@[j] == if j < old(out)@.len() {
                    old(out)@[j]
                } else {
                    block@[8 + j - old(out)@.len()]
                }
        }),
{
    let sum = block@.subrange(0, 4);
    let field = block@.subrange(4, 8);
    assert(sum[0] == block@[0] && field[0] == block@[4]);
}

/// [`law_opened_block_gives_its_chunk`] with the checksum of the bytes of the block from 8 on.
pub proof fn law_decoded_block_gives_its_chunk(
    codec: BlockCodec,
    block: &[u8],
    out: &mut Vec<u8>,
    intact: bool,
)
    requires
        codec.wf(),
        block@.len() == codec.buf_size(),
        call_ensures(BlockCodec::decode_block, (&codec, block, out), intact),
    ensures
        intact <==> block@[0] + 256 * block@[1] + 65536 * block@[2] + 16777216 * block@[3] == crc32c(
            block@.skip(8),
        ),
        ({
            let told = block@[4] + 256 * block@[5] + 65536 * block@[6] + 16777216 * block@[7];
            let len = if !intact {
                0int
            } else if told < block@.len() - 8 {
                told
            } else {
                block@.len() - 8
            };
            &&& final(out)@.len() == old(out)@.len() + len
            &&& forall|j: int|
                0 <= j < final(out)@.len() ==> #[trigger] final(out)@[j] == if j < old(out)@.len() {
                    old(out)@[j]
                } else {
                    block@[8 + j - old(out)@.len()]
                }
        }),
{
    law_intact_block_carries_its_checksum(block@);
    let field = block@.subrange(4, 8);
    assert(field[0] == block@[4]);
}

} // verus!
