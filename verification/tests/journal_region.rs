use fslab::block::{BlockDevice, BLOCK_SIZE};
use fslab::bytes::crc32;
use fslab::error::{Error, ErrorKind};
use fslab::format::{Superblock, SUPERBLOCK_BLOCK};
use fslab::journal::{JournalEntry, JournalLog};
use fslab::journal_codec::encode_entries;
use fslab::journal_region::{
    load_journal_image, region_capacity, store_journal_image, REGION_MAGIC_V1, REGION_VERSION_V1,
};
use fslab::region::{CHECKSUM_OFFSET, HEADER_SIZE};


#[derive(Debug)]
struct MemoryDevice {
    blocks: Vec<[u8; BLOCK_SIZE]>,
    writes: Vec<u64>,
    flushes: usize,
}

impl MemoryDevice {
    fn new(blocks: usize) -> Self {
        Self {
            blocks: vec![[0_u8; BLOCK_SIZE]; blocks],
            writes: Vec::new(),
            flushes: 0,
        }
    }
}

impl BlockDevice for MemoryDevice {
    fn block_count(&self) -> u64 {
        u64::try_from(self.blocks.len()).unwrap()
    }

    fn read_block(&mut self, block: u64, buf: &mut [u8; BLOCK_SIZE]) -> Result<(), Error> {
        let index = usize::try_from(block).map_err(|_| Error::new(ErrorKind::InvalidInput, "block exceeds usize"))?;
        let source = self
            .blocks
            .get(index)
            .ok_or_else(|| Error::new(ErrorKind::UnexpectedEof, "invalid block"))?;
        *buf = *source;
        Ok(())
    }

    fn write_block(&mut self, block: u64, buf: &[u8; BLOCK_SIZE]) -> Result<(), Error> {
        let index = usize::try_from(block).map_err(|_| Error::new(ErrorKind::InvalidInput, "block exceeds usize"))?;
        let destination = self
            .blocks
            .get_mut(index)
            .ok_or_else(|| Error::new(ErrorKind::UnexpectedEof, "invalid block"))?;
        *destination = *buf;
        self.writes.push(block);
        Ok(())
    }

    fn flush(&mut self) -> Result<(), Error> {
        self.flushes += 1;
        Ok(())
    }
}

fn sample_entries(superblock: Superblock) -> Vec<JournalEntry> {
    let mut log = JournalLog::new();
    let txid = log.begin().unwrap();
    log.write(txid, superblock.reserved_blocks(), [0x5a; BLOCK_SIZE])
        .unwrap();
    log.commit(txid).unwrap();
    log.entries().to_vec()
}

#[test]
fn round_trip_spans_blocks_and_flushes_with_header_block_last() {
    let superblock = Superblock::with_journal_blocks(16, 2).unwrap();
    let entries = sample_entries(superblock);
    let mut device = MemoryDevice::new(16);

    store_journal_image(&mut device, superblock, &entries).unwrap();

    assert_eq!(device.writes, vec![1, 2, 1]);
    assert_eq!(device.flushes, 3);
    assert_eq!(
        load_journal_image(&mut device, superblock).unwrap(),
        entries
    );
}

#[test]
fn rejects_replacement_while_an_older_journal_image_is_present() {
    let superblock = Superblock::with_journal_blocks(16, 2).unwrap();
    let first = sample_entries(superblock);
    let mut second_log = JournalLog::new();
    let txid = second_log.begin().unwrap();
    second_log
        .write(txid, superblock.reserved_blocks() + 1, [0xa5; BLOCK_SIZE])
        .unwrap();
    second_log.commit(txid).unwrap();
    let mut device = MemoryDevice::new(16);

    store_journal_image(&mut device, superblock, &first).unwrap();
    let writes_before = device.writes.clone();
    let flushes_before = device.flushes;

    assert_eq!(
        store_journal_image(&mut device, superblock, second_log.entries())
            .unwrap_err()
            .kind(),
        ErrorKind::WouldBlock
    );
    assert_eq!(device.writes, writes_before);
    assert_eq!(device.flushes, flushes_before);
    assert_eq!(load_journal_image(&mut device, superblock).unwrap(), first);
}

#[test]
fn empty_store_cannot_discard_an_active_journal() {
    let superblock = Superblock::with_journal_blocks(16, 2).unwrap();
    let entries = sample_entries(superblock);
    let mut device = MemoryDevice::new(16);
    store_journal_image(&mut device, superblock, &entries).unwrap();
    let writes_before = device.writes.clone();
    let flushes_before = device.flushes;

    assert_eq!(
        store_journal_image(&mut device, superblock, &[])
            .unwrap_err()
            .kind(),
        ErrorKind::WouldBlock
    );
    assert_eq!(device.writes, writes_before);
    assert_eq!(device.flushes, flushes_before);
    assert_eq!(load_journal_image(&mut device, superblock).unwrap(), entries);
}

#[test]
fn version_one_active_image_remains_readable() {
    let superblock = Superblock::with_journal_blocks(16, 2).unwrap();
    let entries = sample_entries(superblock);
    let payload = encode_entries(&entries).unwrap();
    let capacity = region_capacity(superblock).unwrap();
    let used = HEADER_SIZE + payload.len();
    let mut region = vec![0_u8; capacity];
    region[0..4].copy_from_slice(&REGION_MAGIC_V1);
    region[4..6].copy_from_slice(&REGION_VERSION_V1.to_le_bytes());
    region[8..16].copy_from_slice(&(payload.len() as u64).to_le_bytes());
    region[HEADER_SIZE..used].copy_from_slice(&payload);
    let checksum = crc32(&region[..used]);
    region[CHECKSUM_OFFSET..CHECKSUM_OFFSET + 4].copy_from_slice(&checksum.to_le_bytes());

    let mut device = MemoryDevice::new(16);
    for (index, block) in superblock.journal_range().enumerate() {
        let start = index * BLOCK_SIZE;
        let end = start + BLOCK_SIZE;
        device.blocks[usize::try_from(block).unwrap()]
            .copy_from_slice(&region[start..end]);
    }

    assert_eq!(load_journal_image(&mut device, superblock).unwrap(), entries);
}

#[test]
fn zeroed_fresh_region_is_empty() {
    let superblock = Superblock::with_journal_blocks(8, 2).unwrap();
    let mut device = MemoryDevice::new(8);
    assert!(load_journal_image(&mut device, superblock)
        .unwrap()
        .is_empty());
}

#[test]
fn region_checksum_detects_cross_block_corruption() {
    let superblock = Superblock::with_journal_blocks(16, 2).unwrap();
    let entries = sample_entries(superblock);
    let mut device = MemoryDevice::new(16);
    store_journal_image(&mut device, superblock, &entries).unwrap();
    device.blocks[2][100] ^= 0xff;

    assert_eq!(
        load_journal_image(&mut device, superblock)
            .unwrap_err()
            .kind(),
        ErrorKind::InvalidData
    );
}

#[test]
fn empty_anchor_ignores_stale_tail_blocks() {
    let superblock = Superblock::with_journal_blocks(8, 2).unwrap();
    let mut device = MemoryDevice::new(8);
    store_journal_image(&mut device, superblock, &[]).unwrap();
    device.blocks[2][BLOCK_SIZE - 1] = 1;

    assert!(load_journal_image(&mut device, superblock)
        .unwrap()
        .is_empty());
}

#[test]
fn active_image_still_rejects_non_zero_trailing_padding() {
    let superblock = Superblock::with_journal_blocks(16, 2).unwrap();
    let entries = sample_entries(superblock);
    let mut device = MemoryDevice::new(16);
    store_journal_image(&mut device, superblock, &entries).unwrap();
    device.blocks[2][BLOCK_SIZE - 1] = 1;

    assert_eq!(
        load_journal_image(&mut device, superblock)
            .unwrap_err()
            .kind(),
        ErrorKind::InvalidData
    );
}

#[test]
fn image_must_fit_reserved_region() {
    let superblock = Superblock::with_journal_blocks(8, 1).unwrap();
    let entries = sample_entries(superblock);
    let mut device = MemoryDevice::new(8);
    assert_eq!(
        store_journal_image(&mut device, superblock, &entries)
            .unwrap_err()
            .kind(),
        ErrorKind::InvalidInput
    );
}

#[test]
fn writes_cannot_target_superblock_or_journal_metadata() {
    let superblock = Superblock::with_journal_blocks(8, 2).unwrap();
    for forbidden in [SUPERBLOCK_BLOCK, superblock.journal_start] {
        let mut log = JournalLog::new();
        let txid = log.begin().unwrap();
        log.write(txid, forbidden, [1; BLOCK_SIZE]).unwrap();
        log.commit(txid).unwrap();
        let mut device = MemoryDevice::new(8);

        assert_eq!(
            store_journal_image(&mut device, superblock, log.entries())
                .unwrap_err()
                .kind(),
            ErrorKind::InvalidData
        );
    }
}

#[test]
fn writes_may_target_allocation_metadata_home_blocks() {
    let superblock = Superblock::with_journal_blocks(8, 2).unwrap();
    let mut log = JournalLog::new();
    let txid = log.begin().unwrap();
    log.write(txid, superblock.allocation_start, [0x7c; BLOCK_SIZE])
        .unwrap();
    log.commit(txid).unwrap();
    let mut device = MemoryDevice::new(8);

    store_journal_image(&mut device, superblock, log.entries()).unwrap();
    assert_eq!(
        load_journal_image(&mut device, superblock).unwrap(),
        log.entries()
    );
}

#[test]
fn writes_may_target_inode_metadata_home_blocks() {
    let superblock = Superblock::with_journal_blocks(16, 2).unwrap();
    let mut log = JournalLog::new();
    let txid = log.begin().unwrap();
    log.write(txid, superblock.inode_start, [0x6d; BLOCK_SIZE])
        .unwrap();
    log.commit(txid).unwrap();
    let mut device = MemoryDevice::new(16);

    store_journal_image(&mut device, superblock, log.entries()).unwrap();
    assert_eq!(
        load_journal_image(&mut device, superblock).unwrap(),
        log.entries()
    );
}

#[test]
fn writes_may_target_directory_metadata_home_blocks() {
    let superblock = Superblock::with_journal_blocks(16, 2).unwrap();
    let mut log = JournalLog::new();
    let txid = log.begin().unwrap();
    log.write(txid, superblock.directory_start, [0x4f; BLOCK_SIZE])
        .unwrap();
    log.commit(txid).unwrap();
    let mut device = MemoryDevice::new(16);

    store_journal_image(&mut device, superblock, log.entries()).unwrap();
    assert_eq!(
        load_journal_image(&mut device, superblock).unwrap(),
        log.entries()
    );
}

#[test]
fn device_size_must_match_superblock() {
    let superblock = Superblock::with_journal_blocks(8, 2).unwrap();
    let mut device = MemoryDevice::new(9);
    assert_eq!(
        load_journal_image(&mut device, superblock)
            .unwrap_err()
            .kind(),
        ErrorKind::InvalidInput
    );
}
