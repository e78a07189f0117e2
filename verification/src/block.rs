//! The blocks in which a record is stored.
//!
//! A record is cut into chunks, and each chunk is kept in a block of its own:
//!
//! | bytes          | content                                            |
//! |:---------------|:---------------------------------------------------|
//! | `0..4`         | CRC32C checksum of all bytes from 8 on             |
//! | `4..8`         | length of the chunk                                |
//! | `8..`          | the chunk, then zeroes up to the end of the block  |
//!
//! Both numbers are little endian.
use crate::buffer_size::buffer_bytes;
use crate::checksum::{crc32c, law_checksum_tells_changes};
use frozen_core::crc32::Crc32C;
use frozen_core::utils::BufferSize;
use vstd::prelude::*;
use vstd::slice::slice_subrange;

verus! {

/// Bytes that the checksum takes in a block.
pub const CRC_SIZE: usize = 4;

/// Bytes that the chunk length takes in a block.
pub const LEN_SIZE: usize = 4;

/// Bytes in front of the chunk in a block.
pub const HEADER_SIZE: usize = CRC_SIZE + LEN_SIZE;

/// The four bytes of a number, the lowest first.
pub open spec fn le_bytes(x: u32) -> Seq<u8> {
    seq![
        (x % 256) as u8,
        (x / 256 % 256) as u8,
        (x / 65536 % 256) as u8,
        (x / 16777216) as u8,
    ]
}

/// The number that four bytes stand for, the lowest first.
pub open spec fn le_value(b: Seq<u8>) -> int {
    b[0] + 256 * b[1] + 65536 * b[2] + 16777216 * b[3]
}

/// A chunk, filled up with zeroes to `size` bytes.
pub open spec fn padded(chunk: Seq<u8>, size: int) -> Seq<u8> {
    chunk + Seq::new((size - chunk.len()) as nat, |i: int| 0u8)
}

/// The block of `buf_size` bytes that holds a chunk under a given checksum.
pub open spec fn framed(checksum: u32, chunk: Seq<u8>, buf_size: int) -> Seq<u8> {
    le_bytes(checksum) + le_bytes(chunk.len() as u32) + padded(chunk, buf_size - HEADER_SIZE)
}

/// The block of `buf_size` bytes that holds a chunk.
pub open spec fn encode_chunk(chunk: Seq<u8>, buf_size: int) -> Seq<u8> {
    framed(crc32c(padded(chunk, buf_size - HEADER_SIZE)), chunk, buf_size)
}

/// The bytes of a block that its checksum covers.
pub open spec fn covered(block: Seq<u8>) -> Seq<u8> {
    block.subrange(HEADER_SIZE as int, block.len() as int)
}

/// A block carries the given checksum.
pub open spec fn carries(block: Seq<u8>, checksum: u32) -> bool {
    le_value(block.subrange(0, CRC_SIZE as int)) == checksum
}

/// The checksum that a block carries is that of its bytes.
pub open spec fn block_intact(block: Seq<u8>) -> bool {
    carries(block, crc32c(covered(block)))
}

/// The length of the chunk in a block, which is cut at the end of the block.
pub open spec fn chunk_len(block: Seq<u8>) -> int {
    let len = le_value(block.subrange(CRC_SIZE as int, HEADER_SIZE as int));
    if len < block.len() - HEADER_SIZE {
        len
    } else {
        block.len() - HEADER_SIZE
    }
}

/// The chunk that a block holds.
pub open spec fn decode_chunk(block: Seq<u8>) -> Seq<u8> {
    block.subrange(HEADER_SIZE as int, HEADER_SIZE + chunk_len(block))
}

/// How many blocks with room for `room` bytes each `len` bytes take.
pub open spec fn block_count(len: int, room: int) -> int {
    (len + room - 1) / room
}

/// Chunk `i` of a record that is cut into chunks of `room` bytes.
pub open spec fn chunk_of(record: Seq<u8>, room: int, i: int) -> Seq<u8> {
    record.subrange(
        i * room,
        if i * room + room < record.len() {
            i * room + room
        } else {
            record.len() as int
        },
    )
}

/// The blocks of `buf_size` bytes that hold a record.
pub open spec fn encode_record(record: Seq<u8>, buf_size: int) -> Seq<Seq<u8>> {
    let room = buf_size - HEADER_SIZE;
    Seq::new(
        block_count(record.len() as int, room) as nat,
        |i: int| encode_chunk(chunk_of(record, room, i), buf_size),
    )
}

/// The chunks of some blocks, one after the other.
pub open spec fn joined(blocks: Seq<Seq<u8>>) -> Seq<u8>
    decreases blocks.len(),
{
    if blocks.len() == 0 {
        Seq::empty()
    } else {
        joined(blocks.drop_last()) + decode_chunk(blocks.last())
    }
}

/// The record that some blocks hold, unless the checksum of one of them is wrong.
pub open spec fn decode_record(blocks: Seq<Seq<u8>>) -> Option<Seq<u8>> {
    if forall|i: int| 0 <= i < blocks.len() ==> block_intact(#[trigger] blocks[i]) {
        Some(joined(blocks))
    } else {
        None
    }
}

/// Writes the four bytes of a number, the lowest first.
fn put_u32(dst: &mut [u8], at: usize, x: u32)
    requires
        at + 4 <= old(dst)@.len(),
    ensures
        final(dst)@ == old(dst)@.update(at as int, le_bytes(x)[0]).update(
            at + 1,
            le_bytes(x)[1],
        ).update(at + 2, le_bytes(x)[2]).update(at + 3, le_bytes(x)[3]),
{
    dst[at] = (x % 256) as u8;
    dst[at + 1] = (x / 256 % 256) as u8;
    dst[at + 2] = (x / 65536 % 256) as u8;
    dst[at + 3] = (x / 16777216) as u8;
}

/// Reads a number from four bytes, the lowest first.
fn get_u32(src: &[u8], at: usize) -> (x: u32)
    requires
        at + 4 <= src@.len(),
    ensures
        x == le_value(src@.subrange(at as int, at + 4)),
{
    src[at] as u32 + 256 * (src[at + 1] as u32) + 65536 * (src[at + 2] as u32) + 16777216 * (src[at
        + 3] as u32)
}

/// The blocks of a record reach to its end, and none of them starts behind it.
pub proof fn lemma_block_count(len: int, room: int)
    requires
        0 <= len,
        1 <= room,
    ensures
        0 <= block_count(len, room) <= len,
        len <= block_count(len, room) * room,
        forall|i: int| 0 <= i < block_count(len, room) ==> 0 <= #[trigger] (i * room) < len,
        len >= 1 ==> block_count(len, room) >= 1,
{
    let q = block_count(len, room);
    vstd::arithmetic::div_mod::lemma_fundamental_div_mod(len + room - 1, room);
    vstd::arithmetic::div_mod::lemma_mod_bound(len + room - 1, room);
    vstd::arithmetic::mul::lemma_mul_is_commutative(room, q);
    vstd::arithmetic::div_mod::lemma_div_pos_is_pos(len + room - 1, room);
    assert(q <= len) by (nonlinear_arith)
        requires
            q * room <= len + room - 1,
            1 <= room,
            0 <= len,
    ;
    assert forall|i: int| 0 <= i < q implies 0 <= #[trigger] (i * room) < len by {
        assert(0 <= i * room <= q * room - room) by (nonlinear_arith)
            requires
                0 <= i <= q - 1,
                1 <= room,
        ;
    }
    if len >= 1 {
        assert(q >= 1) by (nonlinear_arith)
            requires
                len <= q * room,
                len >= 1,
                room >= 1,
        ;
    }
}

/// Turns records into blocks of one size and back.
#[derive(Debug)]
pub struct BlockCodec {
    crc32c: Crc32C,
    buf_size: usize,
}

impl BlockCodec {
    /// The size of a block.
    pub closed spec fn buf_size(&self) -> int {
        self.buf_size as int
    }

    /// Room for a chunk in a block.
    pub open spec fn room(&self) -> int {
        self.buf_size() - HEADER_SIZE
    }

    /// A block has a header and is a whole number of 8-byte words.
    pub open spec fn wf(&self) -> bool {
        &&& HEADER_SIZE <= self.buf_size() <= 16384
        &&& self.buf_size() % 8 == 0
    }

    /// A codec for blocks of `buffer_size`.
    pub fn new(buffer_size: BufferSize) -> (codec: BlockCodec)
        ensures
            codec.wf(),
            codec.buf_size() == buffer_bytes(buffer_size),
    {
        BlockCodec { crc32c: Crc32C::new(), buf_size: buffer_size.bytes() }
    }

    /// How many blocks a record of `len` bytes takes.
    pub fn required(&self, len: usize) -> (n: usize)
        requires
            self.wf(),
            self.room() >= 1,
        ensures
            n == block_count(len as int, self.room()),
    {
        let room: usize = self.buf_size - HEADER_SIZE;
        let whole: usize = len / room;
        let rest: usize = len % room;
        proof {
            vstd::arithmetic::div_mod::lemma_fundamental_div_mod(len as int, room as int);
            vstd::arithmetic::mul::lemma_mul_is_commutative(room as int, whole as int);
            lemma_block_count(len as int, room as int);
            if rest == 0 {
                vstd::arithmetic::div_mod::lemma_fundamental_div_mod_converse(
                    len + room - 1,
                    room as int,
                    whole as int,
                    room - 1,
                );
            } else {
                assert((whole + 1) * room == whole * room + room) by (nonlinear_arith);
                vstd::arithmetic::div_mod::lemma_fundamental_div_mod_converse(
                    len + room - 1,
                    room as int,
                    whole + 1,
                    rest - 1,
                );
            }
        }
        if rest == 0 {
            whole
        } else {
            whole + 1
        }
    }

    /// Writes block `idx` of the record `src` to `dst`, all but its checksum.
    pub fn fill_block(&self, src: &[u8], idx: usize, dst: &mut [u8])
        requires
            self.wf(),
            self.room() >= 1,
            idx < block_count(src@.len() as int, self.room()),
            old(dst)@.len() == self.buf_size(),
        ensures
            final(dst)@ == old(dst)@.subrange(0, CRC_SIZE as int) + framed(
                0,
                chunk_of(src@, self.room(), idx as int),
                self.buf_size(),
            ).subrange(CRC_SIZE as int, self.buf_size()),
    {
        let room: usize = self.buf_size - HEADER_SIZE;
        let total: usize = src.len();
        proof {
            lemma_block_count(src@.len() as int, room as int);
            assert(0 <= idx * room < src@.len());
        }
        let start: usize = idx * room;
        let len: usize = if total - start < room {
            total - start
        } else {
            room
        };
        let ghost chunk = chunk_of(src@, room as int, idx as int);
        let ghost area = padded(chunk, room as int);
        let ghost front = dst@.subrange(0, CRC_SIZE as int);
        let mut i: usize = 0;
        while i < len
            invariant
                i <= len,
                len <= room <= 16384,
                start + len <= total,
                total == src@.len(),
                chunk == src@.subrange(start as int, start + len),
                dst@.len() == room + HEADER_SIZE,
                dst@.subrange(0, CRC_SIZE as int) == front,
                forall|j: int| 0 <= j < i ==> #[trigger] dst@[HEADER_SIZE + j] == chunk[j],
            decreases len - i,
        {
            dst[HEADER_SIZE + i] = src[start + i];
            proof {
                assert(dst@.subrange(0, CRC_SIZE as int) =~= front);
            }
            i = i + 1;
        }
        while i < room
            invariant
                len <= i <= room,
                room <= 16384,
                chunk.len() == len,
                dst@.len() == room + HEADER_SIZE,
                dst@.subrange(0, CRC_SIZE as int) == front,
                forall|j: int| 0 <= j < len ==> #[trigger] dst@[HEADER_SIZE + j] == chunk[j],
                forall|j: int| len <= j < i ==> #[trigger] dst@[HEADER_SIZE + j] == 0,
            decreases room - i,
        {
            dst[HEADER_SIZE + i] = 0;
            proof {
                assert(dst@.subrange(0, CRC_SIZE as int) =~= front);
            }
            i = i + 1;
        }
        put_u32(dst, CRC_SIZE, len as u32);
        proof {
            let want = front + framed(0, chunk, self.buf_size()).subrange(
                CRC_SIZE as int,
                self.buf_size(),
            );
            assert forall|j: int| 0 <= j < self.buf_size() implies dst@[j] == want[j] by {
                if j >= HEADER_SIZE {
                    assert(dst@[HEADER_SIZE + (j - HEADER_SIZE)] == area[j - HEADER_SIZE]);
                }
            }
            assert(dst@ =~= want);
        }
    }

    /// Writes the checksum of a block.
    pub fn seal_block(dst: &mut [u8], checksum: u32)
        requires
            old(dst)@.len() >= HEADER_SIZE,
        ensures
            final(dst)@ == le_bytes(checksum) + old(dst)@.subrange(
                CRC_SIZE as int,
                old(dst)@.len() as int,
            ),
    {
        put_u32(dst, 0, checksum);
        proof {
            assert(dst@ =~= le_bytes(checksum) + old(dst)@.subrange(
                CRC_SIZE as int,
                old(dst)@.len() as int,
            ));
        }
    }

    /// Writes block `idx` of the record `src` to `dst`.
    pub fn encode_block(&self, src: &[u8], idx: usize, dst: &mut [u8])
        requires
            self.wf(),
            self.room() >= 1,
            idx < block_count(src@.len() as int, self.room()),
            old(dst)@.len() == self.buf_size(),
        ensures
            final(dst)@ == encode_chunk(
                chunk_of(src@, self.room(), idx as int),
                self.buf_size(),
            ),
    {
        let ghost chunk = chunk_of(src@, self.room(), idx as int);
        proof {
            lemma_block_count(src@.len() as int, self.room());
            assert(0 <= idx * self.room() < src@.len());
        }
        self.fill_block(src, idx, dst);
        proof {
            assert(covered(dst@) =~= padded(chunk, self.room()));
        }
        let checksum: u32 = self.crc32c.crc(slice_subrange(dst, HEADER_SIZE, self.buf_size));
        Self::seal_block(dst, checksum);
        proof {
            assert(dst@ =~= encode_chunk(chunk, self.buf_size()));
        }
    }

    /// The blocks that hold the record `src`.
    pub fn encode(&self, src: &[u8]) -> (blocks: Vec<Vec<u8>>)
        requires
            self.wf(),
            self.room() >= 1,
        ensures
            block_views(blocks@) == encode_record(src@, self.buf_size()),
    {
        let required: usize = self.required(src.len());
        let mut blocks: Vec<Vec<u8>> = Vec::new();
        let mut idx: usize = 0;
        while idx < required
            invariant
                self.wf(),
                self.room() >= 1,
                idx <= required,
                required == block_count(src@.len() as int, self.room()),
                blocks@.len() == idx,
                forall|i: int|
                    0 <= i < idx ==> (#[trigger] blocks@[i])@ == encode_record(
                        src@,
                        self.buf_size(),
                    )[i],
            decreases required - idx,
        {
            let mut block: Vec<u8> = vec![0u8; self.buf_size];
            self.encode_block(src, idx, block.as_mut_slice());
            blocks.push(block);
            idx = idx + 1;
        }
        proof {
            assert(block_views(blocks@) =~= encode_record(src@, self.buf_size()));
        }
        blocks
    }

    /// Appends the chunk in `block` to `out` if the block carries the checksum `computed`.
    pub fn open_block(block: &[u8], computed: u32, out: &mut Vec<u8>) -> (intact: bool)
        requires
            HEADER_SIZE <= block@.len() <= 16384,
        ensures
            intact == carries(block@, computed),
            final(out)@ == if intact {
                old(out)@ + decode_chunk(block@)
            } else {
                old(out)@
            },
    {
        let stored: u32 = get_u32(block, 0);
        if stored != computed {
            return false;
        }
        let len: u32 = get_u32(block, CRC_SIZE);
        let room: usize = block.len() - HEADER_SIZE;
        let valid_len: usize = if len < room as u32 {
            len as usize
        } else {
            room
        };
        out.extend_from_slice(slice_subrange(block, HEADER_SIZE, HEADER_SIZE + valid_len));
        proof {
            assert(out@ =~= old(out)@ + decode_chunk(block@));
        }
        true
    }

    /// Appends the chunk in `block` to `out` if the checksum of the block is right.
    pub fn decode_block(&self, block: &[u8], out: &mut Vec<u8>) -> (intact: bool)
        requires
            self.wf(),
            block@.len() == self.buf_size(),
        ensures
            intact == block_intact(block@),
            final(out)@ == if intact {
                old(out)@ + decode_chunk(block@)
            } else {
                old(out)@
            },
    {
        let computed: u32 = self.crc32c.crc(slice_subrange(block, HEADER_SIZE, self.buf_size));
        Self::open_block(block, computed, out)
    }

    /// The record that `blocks` hold, unless the checksum of one of them is wrong.
    pub fn decode(&self, blocks: &[&[u8]]) -> (r: Option<Vec<u8>>)
        requires
            self.wf(),
            forall|i: int| 0 <= i < blocks@.len() ==> (#[trigger] blocks@[i])@.len() == self.buf_size(),
        ensures
            match r {
                Some(record) => decode_record(slice_views(blocks@)) == Some(record@),
                None => decode_record(slice_views(blocks@)) is None,
            },
    {
        let ghost views = slice_views(blocks@);
        let mut out: Vec<u8> = Vec::new();
        let mut i: usize = 0;
        proof {
            assert(views.take(0) =~= Seq::empty());
        }
        while i < blocks.len()
            invariant
                self.wf(),
                i <= blocks@.len(),
                views == slice_views(blocks@),
                forall|j: int|
                    0 <= j < blocks@.len() ==> (#[trigger] blocks@[j])@.len() == self.buf_size(),
                forall|j: int| 0 <= j < i ==> block_intact(#[trigger] views[j]),
                out@ == joined(views.take(i as int)),
            decreases blocks@.len() - i,
        {
            if !self.decode_block(blocks[i], &mut out) {
                proof {
                    assert(!block_intact(views[i as int]));
                }
                return None;
            }
            proof {
                assert(views.take(i + 1).drop_last() =~= views.take(i as int));
            }
            i = i + 1;
        }
        proof {
            assert(views.take(i as int) =~= views);
        }
        Some(out)
    }
}

/// The bytes of some blocks.
pub open spec fn block_views(blocks: Seq<Vec<u8>>) -> Seq<Seq<u8>> {
    Seq::new(blocks.len(), |i: int| blocks[i]@)
}

/// The bytes of some borrowed blocks.
pub open spec fn slice_views(blocks: Seq<&[u8]>) -> Seq<Seq<u8>> {
    Seq::new(blocks.len(), |i: int| blocks[i]@)
}

/// The bytes of a number stand for it.
pub proof fn lemma_le_round_trip(x: u32)
    ensures
        le_bytes(x).len() == 4,
        le_value(le_bytes(x)) == x,
{
    assert(x % 256 + 256 * (x / 256 % 256) + 65536 * (x / 65536 % 256) + 16777216 * (x / 16777216)
        == x) by (bit_vector);
    assert(x / 16777216 < 256) by (bit_vector);
}

/// A block that holds a chunk is intact and gives the chunk back.
pub proof fn law_decode_encode_chunk(chunk: Seq<u8>, buf_size: int)
    requires
        HEADER_SIZE <= buf_size <= 16384,
        chunk.len() <= buf_size - HEADER_SIZE,
    ensures
        encode_chunk(chunk, buf_size).len() == buf_size,
        block_intact(encode_chunk(chunk, buf_size)),
        decode_chunk(encode_chunk(chunk, buf_size)) == chunk,
{
    let block = encode_chunk(chunk, buf_size);
    let area = padded(chunk, buf_size - HEADER_SIZE);
    lemma_le_round_trip(crc32c(area));
    lemma_le_round_trip(chunk.len() as u32);
    assert(block.subrange(0, CRC_SIZE as int) =~= le_bytes(crc32c(area)));
    assert(block.subrange(CRC_SIZE as int, HEADER_SIZE as int) =~= le_bytes(chunk.len() as u32));
    assert(covered(block) =~= area);
    assert(decode_chunk(block) =~= chunk);
}

proof fn lemma_joined_prefix(record: Seq<u8>, buf_size: int, k: int)
    requires
        HEADER_SIZE < buf_size <= 16384,
        0 <= k <= block_count(record.len() as int, buf_size - HEADER_SIZE),
    ensures
        joined(encode_record(record, buf_size).take(k)) == record.take(
            if k * (buf_size - HEADER_SIZE) < record.len() {
                k * (buf_size - HEADER_SIZE)
            } else {
                record.len() as int
            },
        ),
    decreases k,
{
    let room = buf_size - HEADER_SIZE;
    let blocks = encode_record(record, buf_size);
    lemma_block_count(record.len() as int, room);
    if k == 0 {
        assert(blocks.take(0) =~= Seq::empty());
        assert(record.take(0) =~= Seq::empty());
        assert(0 * room == 0);
    } else {
        lemma_joined_prefix(record, buf_size, k - 1);
        assert(0 <= (k - 1) * room < record.len());
        assert(k * room == (k - 1) * room + room) by (nonlinear_arith);
        assert(blocks.take(k).drop_last() =~= blocks.take(k - 1));
        let chunk = chunk_of(record, room, k - 1);
        law_decode_encode_chunk(chunk, buf_size);
        assert(blocks.take(k).last() == encode_chunk(chunk, buf_size));
        let end = if k * room < record.len() {
            k * room
        } else {
            record.len() as int
        };
        assert(record.take((k - 1) * room) + chunk =~= record.take(end));
    }
}

/// Reading the blocks of a record gives the record back.
pub proof fn law_decode_encode_record(record: Seq<u8>, buf_size: int)
    requires
        HEADER_SIZE < buf_size <= 16384,
    ensures
        decode_record(encode_record(record, buf_size)) == Some(record),
{
    let room = buf_size - HEADER_SIZE;
    let blocks = encode_record(record, buf_size);
    lemma_block_count(record.len() as int, room);
    assert forall|i: int| 0 <= i < blocks.len() implies block_intact(#[trigger] blocks[i]) by {
        assert(0 <= i * room < record.len());
        law_decode_encode_chunk(chunk_of(record, room, i), buf_size);
    }
    lemma_joined_prefix(record, buf_size, blocks.len() as int);
    assert(blocks.take(blocks.len() as int) =~= blocks);
    assert(record.take(record.len() as int) =~= record);
}

/// Some bytes of a block have changed, all of them within four in a row from `at` on. The four lie
/// in the part that the checksum covers, or they are the checksum itself.
pub open spec fn damaged(good: Seq<u8>, bad: Seq<u8>, at: int) -> bool {
    &&& bad.len() == good.len()
    &&& bad != good
    &&& at == 0 || HEADER_SIZE <= at
    &&& at + 4 <= good.len()
    &&& forall|i: int| 0 <= i < good.len() && !(at <= i < at + 4) ==> #[trigger] bad[i] == good[i]
}

/// A block that was intact is no longer so once it is damaged.
///
/// The checksum does not cover the length of the chunk: a change there goes unseen.
pub proof fn law_damaged_block_is_refused(good: Seq<u8>, bad: Seq<u8>, at: int)
    requires
        HEADER_SIZE <= good.len(),
        block_intact(good),
        damaged(good, bad, at),
    ensures
        !block_intact(bad),
{
    let (a, b) = (good.subrange(0, CRC_SIZE as int), bad.subrange(0, CRC_SIZE as int));
    if at == 0 {
        assert(covered(bad) =~= covered(good));
        if block_intact(bad) {
            assert(a[0] == b[0] && a[1] == b[1] && a[2] == b[2] && a[3] == b[3]);
            assert forall|i: int| 0 <= i < good.len() implies bad[i] == good[i] by {
                if i < 4 {
                    assert(a[i] == b[i]);
                }
            }
            assert(bad =~= good);
        }
    } else {
        assert(a =~= b);
        if covered(bad) == covered(good) {
            assert forall|i: int| 0 <= i < good.len() implies bad[i] == good[i] by {
                if i >= HEADER_SIZE {
                    assert(covered(bad)[i - HEADER_SIZE] == covered(good)[i - HEADER_SIZE]);
                }
            }
            assert(bad =~= good);
        }
        law_checksum_tells_changes(covered(good), covered(bad), at - HEADER_SIZE);
    }
}

/// A record is not read once one of its blocks is damaged.
pub proof fn law_damaged_record_is_refused(
    blocks: Seq<Seq<u8>>,
    i: int,
    bad: Seq<u8>,
    at: int,
)
    requires
        0 <= i < blocks.len(),
        HEADER_SIZE <= blocks[i].len(),
        decode_record(blocks) is Some,
        damaged(blocks[i], bad, at),
    ensures
        decode_record(blocks.update(i, bad)) is None,
{
    law_damaged_block_is_refused(blocks[i], bad, at);
    assert(!block_intact(blocks.update(i, bad)[i]));
}

} // verus!
