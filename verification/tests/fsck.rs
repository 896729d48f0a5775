use fslab::block::BLOCK_SIZE;
use fslab::error::ErrorKind;
use fslab::format::Superblock;
use fslab::fsck::audit_journal;
use fslab::journal::JournalEntry;

#[test]
fn audit_reports_committed_and_pending_transactions() {
    let superblock = Superblock::with_journal_blocks(16, 2).unwrap();
    let data = Box::new([7_u8; BLOCK_SIZE]);
    let entries = vec![
        JournalEntry::Begin { txid: 1 },
        JournalEntry::Write {
            txid: 1,
            block: superblock.reserved_blocks(),
            data: data.clone(),
        },
        JournalEntry::Commit { txid: 1 },
        JournalEntry::Begin { txid: 2 },
        JournalEntry::Write {
            txid: 2,
            block: superblock.reserved_blocks() + 1,
            data,
        },
    ];
    let data_blocks = superblock.total_blocks - superblock.reserved_blocks();

    let report = audit_journal(superblock, &entries, 0, data_blocks).unwrap();
    assert_eq!(report.committed_transactions, 1);
    assert_eq!(report.pending_transaction, Some(2));
    assert_eq!(report.journal_writes, 2);
    assert_eq!(report.data_blocks, data_blocks);
    assert_eq!(report.allocated_blocks, 0);
    assert_eq!(report.free_blocks, data_blocks);
}

#[test]
fn audit_accepts_allocation_metadata_as_journal_home() {
    let superblock = Superblock::with_journal_blocks(16, 2).unwrap();
    let entries = vec![
        JournalEntry::Begin { txid: 1 },
        JournalEntry::Write {
            txid: 1,
            block: superblock.allocation_start,
            data: Box::new([0_u8; BLOCK_SIZE]),
        },
        JournalEntry::Commit { txid: 1 },
    ];
    let data_blocks = superblock.total_blocks - superblock.reserved_blocks();

    let report = audit_journal(superblock, &entries, 0, data_blocks).unwrap();
    assert_eq!(report.committed_transactions, 1);
}

#[test]
fn audit_rejects_superblock_and_journal_ownership() {
    let superblock = Superblock::with_journal_blocks(16, 2).unwrap();
    let data_blocks = superblock.total_blocks - superblock.reserved_blocks();

    for block in [0, superblock.journal_start] {
        let entries = vec![
            JournalEntry::Begin { txid: 1 },
            JournalEntry::Write {
                txid: 1,
                block,
                data: Box::new([0_u8; BLOCK_SIZE]),
            },
            JournalEntry::Commit { txid: 1 },
        ];
        let err = audit_journal(superblock, &entries, 0, data_blocks).unwrap_err();
        assert_eq!(err.kind(), ErrorKind::InvalidData);
    }
}
