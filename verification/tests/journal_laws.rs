use fslab::block::{BlockDevice, BLOCK_SIZE};
use fslab::directory_codec::PersistedDirectoryEntry;
use fslab::directory_table::load_directory_table;
use fslab::directory_tx::{
    load_retained_directory_table, retain_directory_table_journaled,
    store_directory_table_journaled, update_directory_table_retained_journaled,
};
use fslab::error::{Error, ErrorKind};
use fslab::file_append_batch::append_file_blocks_journaled;
use fslab::file_data::read_file_block;
use fslab::format::{read_superblock, Superblock};
use fslab::format_geometry::format_device_with_journal_blocks;
use fslab::fsck::check_device;
use fslab::inode_table::load_inode_table;
use fslab::journal::{copy_entry, JournalEntry, JournalLog};
use fslab::journal_checkpoint::{
    checkpoint_journal, recover_journal_and_checkpoint, recover_journal_and_checkpoint_checked,
    recover_retained_prefix_and_checkpoint,
};
use fslab::journal_codec::{decode_entries, encode_entries};
use fslab::journal_region::{load_journal_image, store_journal_image};
use fslab::journal_retained::{load_retained_journal_entries, replace_retained_journal_entries};
use fslab::path_create::create_file_with_blocks_at_path_journaled;
use fslab::recovery::{plan_recovery, recover_journal, RecoveryReport};
use fslab::recovery_projection::MemoryDevice;

fn formatted() -> (MemoryDevice, Superblock) {
    let mut device = MemoryDevice { list: vec![[0; BLOCK_SIZE]; 64] };
    let superblock = format_device_with_journal_blocks(&mut device, 16).unwrap();
    (device, superblock)
}

fn one_write(block: u64, mark: u8) -> JournalLog {
    let mut log = JournalLog::new();
    let txid = log.begin().unwrap();
    log.write(txid, block, [mark; BLOCK_SIZE]).unwrap();
    log.commit(txid).unwrap();
    log
}

fn named(parent: u64, target: u64, name: &str) -> PersistedDirectoryEntry {
    PersistedDirectoryEntry { parent, target, name: name.to_owned() }
}

/// A device that fails its `fail_at`th write and every one behind it.
struct FailingDevice {
    inner: MemoryDevice,
    writes: usize,
    fail_at: usize,
}

impl BlockDevice for FailingDevice {
    fn block_count(&self) -> u64 {
        self.inner.block_count()
    }

    fn read_block(&mut self, block: u64, buf: &mut [u8; BLOCK_SIZE]) -> Result<(), Error> {
        self.inner.read_block(block, buf)
    }

    fn write_block(&mut self, block: u64, buf: &[u8; BLOCK_SIZE]) -> Result<(), Error> {
        if self.writes >= self.fail_at {
            return Err(Error::new(ErrorKind::Other, "power is gone"));
        }
        self.writes += 1;
        self.inner.write_block(block, buf)
    }

    fn flush(&mut self) -> Result<(), Error> {
        self.inner.flush()
    }
}

#[test]
fn entries_survive_encoding() {
    let log = one_write(40, 7);
    let stream = encode_entries(log.entries()).unwrap();
    assert_eq!(decode_entries(&stream).unwrap(), log.entries().to_vec());
    assert_eq!(copy_entry(&log.entries()[1]), log.entries()[1]);
    assert_eq!(
        decode_entries(&stream[..stream.len() - 1]).unwrap_err().kind(),
        ErrorKind::InvalidData
    );
}

#[test]
fn a_log_refuses_what_no_transaction_is_open_for() {
    let mut log = JournalLog::new();
    assert!(log.write(1, 30, [0; BLOCK_SIZE]).is_err());
    assert!(log.commit(1).is_err());
    let txid = log.begin().unwrap();
    assert_eq!(txid, 1);
    assert!(log.begin().is_err());
    assert!(log.commit(txid + 1).is_err());
    log.commit(txid).unwrap();
    assert_eq!(log.begin().unwrap(), 2);
}

#[test]
fn only_committed_transactions_are_planned() {
    let mut log = one_write(40, 1);
    let txid = log.begin().unwrap();
    log.write(txid, 41, [2; BLOCK_SIZE]).unwrap();
    let plan = plan_recovery(log.entries()).unwrap();
    assert_eq!(plan.report(), RecoveryReport { committed_transactions: 1, home_writes: 1 });
    assert_eq!(plan.writes().len(), 1);
    assert_eq!(plan.writes()[0].0, 40);
    assert_eq!(
        plan_recovery(&[JournalEntry::Commit { txid: 1 }]).err().unwrap().kind(),
        ErrorKind::InvalidData
    );
}

#[test]
fn replaying_again_changes_nothing() {
    let (mut device, sb) = formatted();
    store_journal_image(&mut device, sb, one_write(40, 7).entries()).unwrap();
    let first = recover_journal(&mut device, sb).unwrap();
    let after = device.list.clone();
    let second = recover_journal(&mut device, sb).unwrap();
    assert_eq!(first, RecoveryReport { committed_transactions: 1, home_writes: 1 });
    assert_eq!(first, second);
    assert!(device.list == after);
    assert_eq!(device.list[40], [7; BLOCK_SIZE]);
}

#[test]
fn an_open_transaction_is_ignored() {
    let (mut device, sb) = formatted();
    let mut log = JournalLog::new();
    let txid = log.begin().unwrap();
    log.write(txid, 40, [7; BLOCK_SIZE]).unwrap();
    store_journal_image(&mut device, sb, log.entries()).unwrap();
    let report = recover_journal_and_checkpoint(&mut device, sb).unwrap();
    assert_eq!(report, RecoveryReport::default());
    assert_eq!(device.list[40], [0; BLOCK_SIZE]);
    assert!(load_journal_image(&mut device, sb).unwrap().is_empty());
}

#[test]
fn a_checkpoint_empties_the_journal_once() {
    let (mut device, sb) = formatted();
    assert!(!checkpoint_journal(&mut device, sb).unwrap());
    store_journal_image(&mut device, sb, one_write(40, 7).entries()).unwrap();
    assert!(checkpoint_journal(&mut device, sb).unwrap());
    assert!(!checkpoint_journal(&mut device, sb).unwrap());
}

#[test]
fn updates_wait_while_a_log_stands_in_the_journal() {
    let (mut device, sb) = formatted();
    let a = create_file_with_blocks_at_path_journaled(&mut device, &sb, "/a", &[[1; BLOCK_SIZE]])
        .unwrap()
        .0;
    store_journal_image(&mut device, sb, one_write(50, 7).entries()).unwrap();
    let before = device.list.clone();
    assert_eq!(
        append_file_blocks_journaled(&mut device, &sb, a, &[[2; BLOCK_SIZE]]).unwrap_err().kind(),
        ErrorKind::WouldBlock
    );
    assert!(device.list == before);
}

#[test]
fn checked_recovery_refuses_a_replay_that_would_break_the_file_system() {
    let (mut device, sb) = formatted();
    store_journal_image(&mut device, sb, one_write(sb.inode_start, 0xFF).entries()).unwrap();
    let before = device.list.clone();
    assert_eq!(
        recover_journal_and_checkpoint_checked(&mut device, sb).unwrap_err().kind(),
        ErrorKind::InvalidData
    );
    assert!(device.list == before);

    let other = Superblock::with_journal_blocks(64, 8).unwrap();
    assert_eq!(
        recover_journal_and_checkpoint_checked(&mut device, other).unwrap_err().kind(),
        ErrorKind::InvalidInput
    );
}

#[test]
fn checked_recovery_replays_what_is_sound() {
    let (mut device, sb) = formatted();
    assert_eq!(
        recover_journal_and_checkpoint_checked(&mut device, sb).unwrap(),
        RecoveryReport::default()
    );
    store_journal_image(&mut device, sb, one_write(50, 7).entries()).unwrap();
    let report = recover_journal_and_checkpoint_checked(&mut device, sb).unwrap();
    assert_eq!(report.home_writes, 1);
    assert_eq!(device.list[50], [7; BLOCK_SIZE]);
}

#[test]
fn wherever_power_is_lost_an_append_is_done_or_not_done() {
    let (mut device, sb) = formatted();
    let a = create_file_with_blocks_at_path_journaled(&mut device, &sb, "/a", &[[1; BLOCK_SIZE]])
        .unwrap()
        .0;
    let mut done = 0;
    let mut undone = 0;
    for fail_at in 0..64 {
        let inner = MemoryDevice { list: device.list.clone() };
        let mut failing = FailingDevice { inner, writes: 0, fail_at };
        let outcome =
            append_file_blocks_journaled(&mut failing, &sb, a, &[[2; BLOCK_SIZE]; 2]);
        let mut after = failing.inner;
        recover_journal_and_checkpoint(&mut after, sb).unwrap();
        check_device(&mut after).unwrap();
        let inodes = load_inode_table(&mut after, &sb).unwrap();
        let count = inodes.iter().find(|inode| inode.id == a).unwrap().blocks.len();
        match count {
            1 => undone += 1,
            3 => {
                done += 1;
                assert_eq!(read_file_block(&mut after, &sb, a, 2).unwrap(), [2; BLOCK_SIZE]);
            }
            _ => panic!("an append was done in part"),
        }
        if outcome.is_ok() {
            assert_eq!(count, 3);
            break;
        }
    }
    assert!(done > 1);
    assert!(undone > 1);
}

#[test]
fn retained_updates_build_on_each_other_before_they_are_replayed() {
    let (mut device, sb) = formatted();
    let a = create_file_with_blocks_at_path_journaled(&mut device, &sb, "/a", &[[1; BLOCK_SIZE]])
        .unwrap()
        .0;

    let first = update_directory_table_retained_journaled(&mut device, &sb, |table| {
        table.push(PersistedDirectoryEntry { parent: 1, target: 2, name: "b".to_owned() });
        Ok(())
    })
    .unwrap();
    assert_eq!(first.appended_home_writes, 1);
    assert_eq!(first.retained.committed_transactions, 1);
    assert_eq!(load_directory_table(&mut device, &sb).unwrap().len(), 1);

    let second = update_directory_table_retained_journaled(&mut device, &sb, |table| {
        assert_eq!(table.len(), 2);
        table.remove(0);
        Ok(())
    })
    .unwrap();
    assert_eq!(second.retained.committed_transactions, 2);
    assert_eq!(
        load_retained_directory_table(&mut device, &sb).unwrap(),
        vec![named(1, a, "b")]
    );
    assert_eq!(
        load_journal_image(&mut device, sb).unwrap_err().kind(),
        ErrorKind::InvalidData
    );

    let report = recover_retained_prefix_and_checkpoint(&mut device, sb, 1).unwrap();
    assert_eq!(report.replayed.committed_transactions, 1);
    assert_eq!(report.remaining_transactions, 1);
    assert_eq!(load_directory_table(&mut device, &sb).unwrap().len(), 2);
    assert_eq!(
        load_retained_directory_table(&mut device, &sb).unwrap(),
        vec![named(1, a, "b")]
    );

    let report = recover_retained_prefix_and_checkpoint(&mut device, sb, 5).unwrap();
    assert_eq!(report.remaining_transactions, 0);
    assert_eq!(load_directory_table(&mut device, &sb).unwrap(), vec![named(1, a, "b")]);
    assert!(load_journal_image(&mut device, sb).unwrap().is_empty());
    check_device(&mut device).unwrap();
}

#[test]
fn a_retained_update_that_breaks_the_namespace_is_refused() {
    let (mut device, sb) = formatted();
    let before = device.list.clone();
    assert_eq!(
        retain_directory_table_journaled(&mut device, &sb, &[named(1, 9, "ghost")])
            .unwrap_err()
            .kind(),
        ErrorKind::InvalidData
    );
    let refused = update_directory_table_retained_journaled(&mut device, &sb, |_| {
        Err(Error::new(ErrorKind::NotFound, "nothing to change"))
    });
    assert_eq!(refused.unwrap_err().kind(), ErrorKind::NotFound);
    let idle = update_directory_table_retained_journaled(&mut device, &sb, |_| Ok(())).unwrap();
    assert_eq!(idle.appended_home_writes, 0);
    assert!(device.list == before);
}

#[test]
fn retained_transactions_wait_for_an_active_log_and_must_fit() {
    let (mut device, sb) = formatted();
    store_directory_table_journaled(&mut device, &sb, &[named(1, 2, "x")]).unwrap();
    assert_eq!(
        load_retained_directory_table(&mut device, &sb).unwrap_err().kind(),
        ErrorKind::WouldBlock
    );

    let mut small = MemoryDevice { list: vec![[0; BLOCK_SIZE]; 64] };
    let sb = format_device_with_journal_blocks(&mut small, 4).unwrap();
    assert_eq!(
        replace_retained_journal_entries(&mut small, sb, one_write(50, 1).entries())
            .unwrap_err()
            .kind(),
        ErrorKind::InvalidInput
    );
    assert_eq!(
        recover_retained_prefix_and_checkpoint(&mut small, sb, 1).unwrap_err().kind(),
        ErrorKind::InvalidInput
    );
    assert_eq!(
        recover_retained_prefix_and_checkpoint(&mut small, sb, 0).unwrap_err().kind(),
        ErrorKind::InvalidInput
    );
}

#[test]
fn a_retained_log_reads_back_from_either_bank_and_notices_damage() {
    let (mut device, sb) = formatted();
    let first = one_write(50, 1);
    let second = one_write(51, 2);
    replace_retained_journal_entries(&mut device, sb, first.entries()).unwrap();
    assert_eq!(
        load_retained_journal_entries(&mut device, sb).unwrap().unwrap(),
        first.entries().to_vec()
    );
    replace_retained_journal_entries(&mut device, sb, second.entries()).unwrap();
    assert_eq!(
        load_retained_journal_entries(&mut device, sb).unwrap().unwrap(),
        second.entries().to_vec()
    );
    device.list[2][0] ^= 1;
    assert!(load_retained_journal_entries(&mut device, sb).unwrap().is_some());
    device.list[9][0] ^= 1;
    assert_eq!(
        load_retained_journal_entries(&mut device, sb).unwrap_err().kind(),
        ErrorKind::InvalidData
    );
}

#[test]
fn a_superblock_is_read_back_from_a_formatted_device() {
    let (mut device, sb) = formatted();
    assert_eq!(read_superblock(&mut device).unwrap(), sb);
    device.list[0][9] ^= 1;
    assert_eq!(read_superblock(&mut device).unwrap_err().kind(), ErrorKind::InvalidData);
}
