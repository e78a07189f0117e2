use frozen_core::crc32::Crc32C;
use kosa::block::BlockCodec;
use kosa::BufferSize;

fn decode(codec: &BlockCodec, blocks: &[Vec<u8>]) -> Option<Vec<u8>> {
    let blocks: Vec<&[u8]> = blocks.iter().map(|block| block.as_slice()).collect();
    codec.decode(&blocks)
}

/// CRC32C, bit by bit.
fn crc32c(bytes: &[u8]) -> u32 {
    let mut crc: u32 = 0xFFFF_FFFF;
    for byte in bytes {
        crc ^= *byte as u32;
        for _ in 0..8 {
            crc = if crc & 1 == 1 { (crc >> 1) ^ 0x82F6_3B78 } else { crc >> 1 };
        }
    }
    !crc
}

#[test]
fn buffer_sizes_are_in_bytes() {
    let sizes = [
        (BufferSize::S8, 0x08),
        (BufferSize::S16, 0x10),
        (BufferSize::S32, 0x20),
        (BufferSize::S64, 0x40),
        (BufferSize::S128, 0x80),
        (BufferSize::S256, 0x100),
        (BufferSize::S512, 0x200),
        (BufferSize::S1024, 0x400),
        (BufferSize::S2048, 0x800),
        (BufferSize::S4096, 0x1000),
        (BufferSize::S8192, 0x2000),
        (BufferSize::S16384, 0x4000),
    ];

    for (size, bytes) in sizes {
        assert_eq!(size.bytes(), bytes);
        assert_eq!(size as usize, bytes);
    }
    assert!(sizes.windows(2).all(|pair| pair[0].0 < pair[1].0));
}

#[test]
fn block_has_a_header_and_a_padded_chunk() {
    let codec = BlockCodec::new(BufferSize::S16);

    assert_eq!(
        codec.encode(b"abc"),
        vec![vec![0xED, 0x3A, 0xB2, 0xFA, 3, 0, 0, 0, b'a', b'b', b'c', 0, 0, 0, 0, 0]]
    );
}

#[test]
fn record_is_cut_into_chunks() {
    let codec = BlockCodec::new(BufferSize::S16);

    let mut first = vec![0x23, 0xA4, 0xA6, 0x8B, 8, 0, 0, 0];
    first.extend_from_slice(b"hello wo");
    let mut second = vec![0x8F, 0x29, 0x02, 0x18, 3, 0, 0, 0];
    second.extend_from_slice(b"rld\0\0\0\0\0");

    assert_eq!(codec.encode(b"hello world"), vec![first, second]);
}

#[test]
fn checksum_covers_the_padding() {
    let codec = BlockCodec::new(BufferSize::S32);

    let block = &codec.encode(b"hello, kosa!")[0];
    assert_eq!(block[..8], [0x9D, 0xCF, 0x6E, 0x7D, 12, 0, 0, 0]);
    assert_eq!(Crc32C::new().crc(&block[8..]), 0x7D6ECF9D);
}

#[test]
fn checksum_is_the_remainder_of_a_division() {
    assert_eq!(crc32c(b"12345678"), 0x6087809A);
    assert_eq!(crc32c(b"123456789"), 0xE3069283);

    for size in [BufferSize::S16, BufferSize::S64, BufferSize::S4096] {
        let codec = BlockCodec::new(size);
        for seed in 0..0x20usize {
            let record: Vec<u8> = (0..size.bytes() - 8).map(|i| (seed * 7 + i * i) as u8).collect();
            let block = codec.encode(&record).remove(0);

            assert_eq!(block[..4], crc32c(&record).to_le_bytes());
            assert_eq!(Crc32C::new().crc(&record), crc32c(&record));
        }
    }
    assert_eq!(Crc32C::new().crc(&[]), 0);
    assert_eq!(Crc32C::new().crc(b"12345678"), 0x6087809A);
}

#[test]
fn blocks_are_counted() {
    let codec = BlockCodec::new(BufferSize::S64);

    assert_eq!(codec.required(0), 0);
    assert_eq!(codec.required(1), 1);
    assert_eq!(codec.required(56), 1);
    assert_eq!(codec.required(57), 2);
    assert_eq!(codec.required(112), 2);
    assert_eq!(codec.required(113), 3);
    assert_eq!(codec.required(usize::MAX), usize::MAX / 56 + 1);
}

#[test]
fn record_comes_back_from_its_blocks() {
    for size in [BufferSize::S16, BufferSize::S64, BufferSize::S4096] {
        let codec = BlockCodec::new(size);
        for len in [0usize, 1, 7, 8, 9, 55, 56, 57, 4088, 4089, 10000] {
            let record: Vec<u8> = (0..len).map(|i| (i * 31 % 251) as u8).collect();
            let blocks = codec.encode(&record);

            assert_eq!(blocks.len(), codec.required(len));
            assert!(blocks.iter().all(|block| block.len() == size.bytes()));
            assert_eq!(decode(&codec, &blocks), Some(record));
        }
    }
}

#[test]
fn damaged_block_is_refused() {
    let codec = BlockCodec::new(BufferSize::S32);
    let blocks = codec.encode(&[7u8; 60]);
    assert_eq!(blocks.len(), 3);

    for damaged in 0..3 {
        for byte in [0usize, 3, 8, 20, 31] {
            let mut copy = blocks.clone();
            copy[damaged][byte] ^= 0x10;
            assert_eq!(decode(&codec, &copy), None);
        }
    }
}

#[test]
fn every_change_within_four_bytes_is_noticed() {
    let codec = BlockCodec::new(BufferSize::S64);
    let blocks = codec.encode(b"some record that fills a block with more than zeroes");

    for at in (0..1).chain(8..61) {
        for change in [1u32, 0x80, 0x8000_0001, 0x82F6_3B78, 0x0102_0304, u32::MAX] {
            let mut copy = blocks.clone();
            for (i, byte) in change.to_le_bytes().iter().enumerate() {
                copy[0][at + i] ^= byte;
            }
            assert_eq!(decode(&codec, &copy), None);
        }
    }
}

#[test]
fn chunk_length_is_cut_at_the_end_of_the_block() {
    let codec = BlockCodec::new(BufferSize::S16);
    let mut blocks = codec.encode(b"abc");

    blocks[0][4] = 5;
    assert_eq!(decode(&codec, &blocks), Some(b"abc\0\0".to_vec()));

    blocks[0][7] = 0xFF;
    assert_eq!(decode(&codec, &blocks), Some(b"abc\0\0\0\0\0".to_vec()));
}

#[test]
fn block_opens_under_the_checksum_it_carries() {
    let mut out = vec![9u8];
    let block = [0x78, 0x56, 0x34, 0x12, 2, 0, 0, 0, 0xAA, 0xBB, 0xCC, 0xDD, 0, 0, 0, 0];

    assert!(!BlockCodec::open_block(&block, 0x12345679, &mut out));
    assert_eq!(out, vec![9]);

    assert!(BlockCodec::open_block(&block, 0x12345678, &mut out));
    assert_eq!(out, vec![9, 0xAA, 0xBB]);
}

#[test]
fn block_is_filled_and_then_sealed() {
    let codec = BlockCodec::new(BufferSize::S16);
    let mut block = [0xEEu8; 16];

    codec.fill_block(b"hello world", 1, &mut block);
    assert_eq!(
        block,
        [0xEE, 0xEE, 0xEE, 0xEE, 3, 0, 0, 0, b'r', b'l', b'd', 0, 0, 0, 0, 0]
    );

    BlockCodec::seal_block(&mut block, 0x12345678);
    assert_eq!(
        block,
        [0x78, 0x56, 0x34, 0x12, 3, 0, 0, 0, b'r', b'l', b'd', 0, 0, 0, 0, 0]
    );
}

#[test]
fn blocks_without_room_hold_nothing() {
    let codec = BlockCodec::new(BufferSize::S8);

    assert_eq!(decode(&codec, &vec![vec![0u8; 8]]), Some(vec![]));
    assert_eq!(decode(&codec, &vec![vec![1, 0, 0, 0, 0, 0, 0, 0]]), None);
}
