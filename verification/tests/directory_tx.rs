use fslab::block::{BlockDevice, BLOCK_SIZE};
use fslab::directory_codec::PersistedDirectoryEntry;
use fslab::directory_table::load_directory_table;
use fslab::directory_tx::store_directory_table_journaled;
use fslab::error::{Error, ErrorKind};
use fslab::format::format_device;
use fslab::journal::JournalLog;
use fslab::journal_region::store_journal_image;
use fslab::recovery::{recover_journal, RecoveryReport};

#[derive(Debug)]
struct FaultDevice {
    blocks: Vec<[u8; BLOCK_SIZE]>,
    flushes: usize,
    fail_once_on: Option<u64>,
}

impl FaultDevice {
    fn new(blocks: usize) -> Self {
        Self {
            blocks: vec![[0_u8; BLOCK_SIZE]; blocks],
            flushes: 0,
            fail_once_on: None,
        }
    }
}

impl BlockDevice for FaultDevice {
    fn block_count(&self) -> u64 {
        u64::try_from(self.blocks.len()).expect("test device length fits u64")
    }

    fn read_block(&mut self, block: u64, buf: &mut [u8; BLOCK_SIZE]) -> Result<(), Error> {
        let index = usize::try_from(block)
            .map_err(|_| Error::new(ErrorKind::InvalidInput, "block exceeds usize"))?;
        *buf = *self
            .blocks
            .get(index)
            .ok_or_else(|| Error::new(ErrorKind::UnexpectedEof, "invalid block"))?;
        Ok(())
    }

    fn write_block(&mut self, block: u64, buf: &[u8; BLOCK_SIZE]) -> Result<(), Error> {
        if self.fail_once_on == Some(block) {
            self.fail_once_on = None;
            return Err(Error::new(ErrorKind::Other, 
                "injected home directory-table write failure",
            ));
        }
        let index = usize::try_from(block)
            .map_err(|_| Error::new(ErrorKind::InvalidInput, "block exceeds usize"))?;
        *self
            .blocks
            .get_mut(index)
            .ok_or_else(|| Error::new(ErrorKind::UnexpectedEof, "invalid block"))? =
            *buf;
        Ok(())
    }

    fn flush(&mut self) -> Result<(), Error> {
        self.flushes += 1;
        Ok(())
    }
}

fn entry(parent: u64, target: u64, name: &str) -> PersistedDirectoryEntry {
    PersistedDirectoryEntry {
        parent,
        target,
        name: name.to_owned(),
    }
}

#[test]
fn journaled_directory_update_crosses_log_then_home_durability_boundaries() {
    let mut device = FaultDevice::new(64);
    let superblock = format_device(&mut device).unwrap();
    let desired = entry(1, 2, "child");
    let flushes_before = device.flushes;

    let report = store_directory_table_journaled(
        &mut device,
        &superblock,
        std::slice::from_ref(&desired),
    )
    .unwrap();

    assert_eq!(report.committed_transactions, 1);
    assert_eq!(report.home_writes, 1);
    // v2 publication crosses empty-anchor, staged-tail, and active-anchor barriers before
    // replay crosses the home durability boundary.
    assert_eq!(device.flushes, flushes_before + 4);
    assert_eq!(
        load_directory_table(&mut device, &superblock).unwrap(),
        vec![desired]
    );
}

#[test]
fn identical_directory_snapshot_is_a_noop() {
    let mut device = FaultDevice::new(64);
    let superblock = format_device(&mut device).unwrap();
    let desired = entry(1, 2, "child");
    store_directory_table_journaled(&mut device, &superblock, std::slice::from_ref(&desired))
        .unwrap();
    let flushes_before = device.flushes;

    let report = store_directory_table_journaled(&mut device, &superblock, &[desired]).unwrap();

    assert_eq!(report, RecoveryReport::default());
    assert_eq!(device.flushes, flushes_before);
}

#[test]
fn crash_before_commit_does_not_mutate_directory_home_state() {
    let mut device = FaultDevice::new(64);
    let superblock = format_device(&mut device).unwrap();
    let original = load_directory_table(&mut device, &superblock).unwrap();
    let mut log = JournalLog::new();
    let txid = log.begin().unwrap();
    log.write(txid, superblock.directory_start, [0xa5; BLOCK_SIZE])
        .unwrap();
    store_journal_image(&mut device, superblock, log.entries()).unwrap();

    let report = recover_journal(&mut device, superblock).unwrap();

    assert_eq!(report, RecoveryReport::default());
    assert_eq!(
        load_directory_table(&mut device, &superblock).unwrap(),
        original
    );
}

#[test]
fn committed_directory_update_survives_home_write_failure_and_replays_idempotently() {
    let mut device = FaultDevice::new(64);
    let superblock = format_device(&mut device).unwrap();
    let desired = entry(1, 2, "child");
    device.fail_once_on = Some(superblock.directory_start);

    assert_eq!(
        store_directory_table_journaled(
            &mut device,
            &superblock,
            std::slice::from_ref(&desired),
        )
        .unwrap_err()
        .kind(),
        ErrorKind::Other
    );

    let report = recover_journal(&mut device, superblock).unwrap();
    assert_eq!(report.committed_transactions, 1);
    assert_eq!(report.home_writes, 1);
    assert_eq!(
        load_directory_table(&mut device, &superblock).unwrap(),
        vec![desired.clone()]
    );

    let second_replay = recover_journal(&mut device, superblock).unwrap();
    assert_eq!(second_replay, report);
    assert_eq!(
        load_directory_table(&mut device, &superblock).unwrap(),
        vec![desired]
    );
}

#[test]
fn multi_block_directory_change_rejects_insufficient_journal_capacity() {
    let mut device = FaultDevice::new(64);
    let superblock = format_device(&mut device).unwrap();
    let entries: Vec<_> = (0..100)
        .map(|index| {
            entry(
                1,
                u64::try_from(index + 2).unwrap(),
                &format!("entry-{index:03}-{}", "x".repeat(32)),
            )
        })
        .collect();

    assert_eq!(
        store_directory_table_journaled(&mut device, &superblock, &entries)
            .unwrap_err()
            .kind(),
        ErrorKind::InvalidInput
    );
}
