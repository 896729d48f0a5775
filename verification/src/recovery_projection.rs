//! A device in memory, and what a real device would hold once a log is replayed.

use vstd::prelude::*;
use crate::block;
use crate::block::{Block, BlockDevice, Disk, BLOCK_SIZE};
use crate::error::{Error, ErrorKind};
use crate::file_blocks;
use crate::format::Superblock;
use crate::fsck;
use crate::fsck::{check_device, FsckReport};
use crate::journal;
use crate::journal::{EntryView, JournalEntry};
use crate::journal_region;
use crate::journal_region::store_empty_journal_anchor;
use crate::recovery;
use crate::recovery::{plan_recovery, write_home_blocks, RecoveryReport};

verus! {

/// A device in memory: every request that names an existing block succeeds, and every write is
/// durable at once.
#[derive(Debug, Clone)]
pub struct MemoryDevice {
    pub list: Vec<Block>,
}

impl BlockDevice for MemoryDevice {
    open spec fn blocks(&self) -> Disk {
        file_blocks::image_views(self.list@)
    }

    open spec fn healthy(&self) -> bool {
        true
    }

    open spec fn durable(&self) -> Set<Disk> {
        set![self.blocks()]
    }

    fn block_count(&self) -> (n: u64) {
        self.list.len() as u64
    }

    fn read_block(&mut self, block: u64, buf: &mut [u8; BLOCK_SIZE]) -> (r: Result<(), Error>) {
        if block >= self.list.len() as u64 {
            return Err(Error::new(ErrorKind::UnexpectedEof, "block index is outside the device"));
        }
        *buf = self.list[block as usize];
        Ok(())
    }

    fn write_block(&mut self, block: u64, buf: &[u8; BLOCK_SIZE]) -> (r: Result<(), Error>) {
        if block >= self.list.len() as u64 {
            return Err(Error::new(ErrorKind::UnexpectedEof, "block index is outside the device"));
        }
        let ghost before = self.blocks();
        self.list[block as usize] = *buf;
        assert(self.blocks() =~= before.update(block as int, buf@));
        assert(old(self).durable().contains(before));
        Ok(())
    }

    fn flush(&mut self) -> (r: Result<(), Error>) {
        Ok(())
    }
}

/// Copies a device into memory.
pub fn copy_device<D: BlockDevice>(device: &mut D) -> (r: Result<MemoryDevice, Error>)
    ensures
        block::untouched(old(device), final(device)),
        old(device).healthy() ==> r is Ok,
        r matches Ok(copy) ==> copy.blocks() == old(device).blocks(),
{
    let count: u64 = device.block_count();
    let mut list: Vec<Block> = Vec::new();
    let mut i: u64 = 0;
    while i < count
        invariant
            count == old(device).blocks().len(),
            i <= count,
            block::untouched(old(device), device),
            list@.len() == i,
            forall|k: int| 0 <= k < i ==> (#[trigger] list@[k])@ == old(device).blocks()[k],
        decreases count - i,
    {
        let mut image: Block = [0u8; BLOCK_SIZE];
        device.read_block(i, &mut image)?;
        list.push(image);
        i += 1;
    }
    let copy = MemoryDevice { list };
    assert(copy.blocks() =~= old(device).blocks());
    Ok(copy)
}

/// What a device holds once a log is replayed and its journal emptied.
pub open spec fn projected(disk: Disk, sb: Superblock, entries: Seq<EntryView>) -> Disk {
    journal_region::emptied(recovery::applied(disk, recovery::plan_of(entries).writes), sb)
}

/// Copies a device into memory and replays a log there.
pub fn projected_device_after_entries<D: BlockDevice>(device: &mut D, superblock: Superblock, entries: &[JournalEntry]) -> (r: Result<(MemoryDevice, RecoveryReport), Error>)
    requires
        superblock.fits(old(device).blocks()),
        journal_region::admissible(superblock, journal::entry_views(entries@)),
    ensures
        block::untouched(old(device), final(device)),
        old(device).healthy() ==> r is Ok,
        r matches Ok((copy, report)) ==> copy.blocks() == projected(
            old(device).blocks(),
            superblock,
            journal::entry_views(entries@),
        ) && report == recovery::report_of(journal::entry_views(entries@)),
{
    let ghost views = journal::entry_views(entries@);
    let mut copy = copy_device(device)?;
    let plan = plan_recovery(entries)?;
    proof {
        journal_region::lemma_plan_home(superblock, views);
        recovery::lemma_applied(copy.blocks(), recovery::plan_of(views).writes);
    }
    let writes = plan.writes();
    assert(writes@.len() == recovery::write_views(writes@).len());
    write_home_blocks(&mut copy, writes)?;
    store_empty_journal_anchor(&mut copy, superblock)?;
    Ok((copy, plan.report()))
}

/// Inspects strictly what a device would hold once a log is replayed; nothing is written to it.
pub fn check_device_after_entries_projection<D: BlockDevice>(device: &mut D, superblock: Superblock, entries: &[JournalEntry]) -> (r: Result<(FsckReport, RecoveryReport), Error>)
    requires
        superblock.fits(old(device).blocks()),
        journal_region::admissible(superblock, journal::entry_views(entries@)),
    ensures
        block::untouched(old(device), final(device)),
        match r {
            Ok((report, replay)) => {
                &&& fsck::checked(
                    projected(
                        old(device).blocks(),
                        superblock,
                        journal::entry_views(entries@),
                    ),
                ) == Ok::<FsckReport, ErrorKind>(report)
                &&& replay == recovery::report_of(journal::entry_views(entries@))
            },
            Err(e) => !old(device).healthy() || fsck::checked(
                projected(old(device).blocks(), superblock, journal::entry_views(entries@)),
            ) == Err::<FsckReport, ErrorKind>(e.kind),
        },
{
    let (mut copy, replay) = projected_device_after_entries(device, superblock, entries)?;
    proof {
        journal_region::lemma_plan_home(superblock, journal::entry_views(entries@));
        recovery::lemma_applied(
            old(device).blocks(),
            recovery::plan_of(journal::entry_views(entries@)).writes,
        );
    }
    let report = check_device(&mut copy)?;
    Ok((report, replay))
}

} // verus!
