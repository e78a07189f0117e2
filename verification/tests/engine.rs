use frozen_core::ffile::{FrozenFile, FrozenFileCfg};
use kosa::bitmap::page::{Page, SLOTS_PER_PAGE};
use kosa::bitmap::row::SLOTS_PER_ROW;
use kosa::bitmap::simd::{Arch, SIMD};
use kosa::engine::init_pages;
use kosa::{BufferSize, Kosa, KosaCfg};
use std::time::Duration;
use tempfile::{tempdir, TempDir};

const TEST_FLUSH_DUR: Duration = Duration::from_millis(0x64);
const TEST_MAX_MEM: usize = 0x400 * 0x400 * 0x0A;
const BUF_SIZE: usize = 0x1000;

fn config(dir: &TempDir, buffer_size: BufferSize, buffers: usize) -> KosaCfg {
    KosaCfg {
        path: dir.path().to_path_buf(),
        buffer_size,
        initial_available_buffers: buffers,
        flush_duration: TEST_FLUSH_DUR,
        max_memory: TEST_MAX_MEM,
    }
}

fn setup_engine(dir: &TempDir) -> Kosa {
    Kosa::new(&config(dir, BufferSize::S4096, 0x40), SIMD::new(Arch::X86_64, true))
}

fn setup_file(dir: &TempDir) -> FrozenFile {
    FrozenFile::new(FrozenFileCfg {
        module_id: 1,
        path: dir.path().join("data"),
        buffer_size: BUF_SIZE,
        initial_available_buffers: 0x40,
    })
    .unwrap()
}

fn store(file: &FrozenFile, slot: u64, mut blocks: Vec<Vec<u8>>) {
    for (i, block) in blocks.iter_mut().enumerate() {
        file.pwrite(block.as_mut_ptr(), slot as usize + i).unwrap();
    }
    file.sync().unwrap();
}

fn fetch(file: &FrozenFile, slot: u64, required: usize) -> Vec<Vec<u8>> {
    let mut blocks = vec![vec![0u8; BUF_SIZE]; required];
    for (i, block) in blocks.iter_mut().enumerate() {
        file.pread(block.as_mut_ptr(), slot as usize + i).unwrap();
    }
    blocks
}

fn read(engine: &Kosa, blocks: &[Vec<u8>]) -> Option<Vec<u8>> {
    let blocks: Vec<&[u8]> = blocks.iter().map(|block| block.as_slice()).collect();
    engine.read(&blocks)
}

fn required(len: usize) -> usize {
    let header_size = std::mem::size_of::<u32>() * 2;
    let payload_capacity = BUF_SIZE - header_size;
    len.div_ceil(payload_capacity).max(1)
}

#[test]
fn ok_write_single_block() {
    let dir = tempdir().unwrap();
    let mut engine = setup_engine(&dir);

    let payload = b"hello world, fire and forget. Go";
    let (_blocks, slot_index, _) = engine.write(payload).unwrap();

    assert_eq!(slot_index, 0);
}

#[test]
fn ok_delete_lifecycle() {
    let dir = tempdir().unwrap();
    let mut engine = setup_engine(&dir);

    let payload = vec![0x01; 0x100];
    let (_blocks, slot1, _) = engine.write(&payload).unwrap();
    assert_eq!(slot1, 0);

    engine.delete(slot1, 1);
    assert!(engine.write(&payload).is_some());
}

#[test]
fn ok_read_empty_required() {
    let dir = tempdir().unwrap();
    let engine = setup_engine(&dir);

    let result = engine.read(&[]);
    assert_eq!(result, Some(Vec::new()), "Expected empty vector for 0 required blocks");
}

#[test]
fn ok_write_then_read_success() {
    let dir = tempdir().unwrap();
    let mut engine = setup_engine(&dir);
    let file = setup_file(&dir);

    let payload = b"testing complete read/write lifecycle";
    let (blocks, slot_index, _) = engine.write(payload).unwrap();
    store(&file, slot_index, blocks);

    let read_data = read(&engine, &fetch(&file, slot_index, required(payload.len()))).unwrap();

    assert_eq!(payload.as_slice(), read_data.as_slice());
}

#[test]
fn ok_write_multiple_blocks() {
    let dir = tempdir().unwrap();
    let mut engine = setup_engine(&dir);
    let file = setup_file(&dir);

    let payload = vec![0x42; 0x4000];
    let (blocks, slot_index, n) = engine.write(&payload).unwrap();
    assert_eq!(n as usize, required(payload.len()));
    assert_eq!(n, 5);
    store(&file, slot_index, blocks);

    let read_data = read(&engine, &fetch(&file, slot_index, required(payload.len()))).unwrap();

    assert_eq!(payload, read_data);
}

#[test]
fn ok_delete_allows_reuse() {
    let dir = tempdir().unwrap();
    let mut engine = setup_engine(&dir);
    let file = setup_file(&dir);

    let payload1 = b"first payload";
    let (blocks1, slot1, _) = engine.write(payload1).unwrap();
    store(&file, slot1, blocks1);
    assert_eq!(slot1, 0);

    engine.delete(slot1, 1);

    let payload2 = b"second payload overwriting";
    let (blocks2, slot2, _) = engine.write(payload2).unwrap();
    store(&file, slot2, blocks2);

    let read_data = read(&engine, &fetch(&file, slot2, required(payload2.len()))).unwrap();

    assert_eq!(payload2.as_slice(), read_data.as_slice());
}

#[test]
fn records_survive_other_writes_and_deletes() {
    let dir = tempdir().unwrap();
    let mut engine = setup_engine(&dir);
    let file = setup_file(&dir);

    let mut records = Vec::new();
    for i in 0..0x30usize {
        let payload: Vec<u8> = (0..i * 0x200 + 1).map(|j| (i + j) as u8).collect();
        let (blocks, slot, n) = engine.write(&payload).unwrap();
        store(&file, slot, blocks);
        records.push((slot, n as usize, payload));

        if i % 3 == 2 {
            let (slot, n, _) = records.remove(i / 3);
            engine.delete(slot, n);
        }
        for (slot, n, payload) in &records {
            assert_eq!(read(&engine, &fetch(&file, *slot, *n)).as_ref(), Some(payload));
        }
    }
}

#[test]
fn damaged_record_is_not_read() {
    let dir = tempdir().unwrap();
    let mut engine = setup_engine(&dir);
    let file = setup_file(&dir);

    let (blocks, slot, n) = engine.write(&vec![0x42; 0x2000]).unwrap();
    store(&file, slot, blocks);

    let mut damaged = fetch(&file, slot + 1, 1).remove(0);
    damaged[0x20] ^= 1;
    file.pwrite(damaged.as_mut_ptr(), slot as usize + 1).unwrap();

    assert_eq!(read(&engine, &fetch(&file, slot, n as usize)), None);
}

#[test]
fn slots_that_were_never_written_are_not_read() {
    let dir = tempdir().unwrap();
    let engine = setup_engine(&dir);
    let file = setup_file(&dir);

    assert_eq!(read(&engine, &fetch(&file, 9, 1)), None);
}

#[test]
fn write_fails_when_no_row_has_room() {
    let dir = tempdir().unwrap();
    let cfg = config(&dir, BufferSize::S64, 0x10);
    let mut engine = Kosa::new(&cfg, SIMD::new(Arch::Aarch64, false));

    let payload = vec![5u8; 56 * SLOTS_PER_ROW];
    for row in 0..7 {
        let (blocks, slot, n) = engine.write(&payload).unwrap();
        assert_eq!(blocks.len(), SLOTS_PER_ROW);
        assert_eq!(slot, row * SLOTS_PER_ROW as u64);
        assert_eq!(n, SLOTS_PER_ROW as u64);
    }
    assert!(engine.write(&payload).is_none());
    assert!(engine.write(b"x").is_none());

    engine.delete(3 * SLOTS_PER_ROW as u64, SLOTS_PER_ROW);
    assert_eq!(engine.write(b"x").unwrap().1, 3 * SLOTS_PER_ROW as u64 + 0x40);
}

#[test]
fn config_tells_the_buffer_size_in_bytes() {
    let dir = tempdir().unwrap();
    let cfg = KosaCfg {
        path: dir.path().to_path_buf(),
        buffer_size: BufferSize::S64,
        initial_available_buffers: 0x1000,
        flush_duration: Duration::from_millis(2),
        max_memory: 0x400 * 0x400 * 0x40,
    };

    assert!(cfg.max_memory > 0);
    assert_eq!(cfg.buffer_size as usize, 0x40);

    let mut engine = Kosa::new(&cfg, SIMD::new(Arch::X86_64, true));
    assert_eq!(engine.write(b"hello, kosa!").unwrap().0[0].len(), 0x40);
}

#[test]
fn pages_hold_the_initial_buffers() {
    assert_eq!(init_pages(0), 1);
    assert_eq!(init_pages(1), 1);
    assert_eq!(init_pages(SLOTS_PER_PAGE - 1), 1);
    assert_eq!(init_pages(SLOTS_PER_PAGE), 1);
    assert_eq!(init_pages(SLOTS_PER_PAGE + 1), 2);
    assert_eq!(init_pages(0x400_000), 2341);
}

#[test]
fn readme_example_record_takes_one_block() {
    let dir = tempdir().unwrap();
    let cfg = config(&dir, BufferSize::S64, 0x1000);
    let mut engine = Kosa::new(&cfg, SIMD::new(Arch::X86_64, false));

    let payload = b"hello world, fire and forget semantics!";
    let (blocks, slot_index, n_bufs) = engine.write(payload).unwrap();
    assert_eq!((slot_index, n_bufs), (0, 1));
    assert_eq!(read(&engine, &blocks).unwrap(), payload);

    engine.delete(slot_index, n_bufs as usize);
}

#[test]
fn reopened_engine_leaves_records_alone() {
    let dir = tempdir().unwrap();
    let simd = SIMD::new(Arch::X86_64, true);
    let mut page = Page::zeroed();
    assert_eq!(page.allocate(&simd, 3), Some(0));
    assert!(page.is_wf());

    let cfg = config(&dir, BufferSize::S4096, 0x40);
    let mut engine = Kosa::open(&cfg, simd, vec![page]);

    let (_blocks, slot, n) = engine.write(&vec![1u8; 0x1000]).unwrap();
    assert_eq!((slot, n), (0x40, 2));
    engine.delete(0, 3);

    let (_blocks, slot, n) = engine.write(&vec![2u8; 255 * 0xFF8]).unwrap();
    assert_eq!((slot, n), (SLOTS_PER_ROW as u64, 0xFF));
}
