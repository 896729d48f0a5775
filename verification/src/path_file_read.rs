//! Reading whole files by path name.

use vstd::prelude::*;
use crate::block;
use crate::block::{BlockDevice, Disk};
use crate::contents;
use crate::error::{Error, ErrorKind};
use crate::file_blocks;
use crate::file_blocks::{find_inode, invalid_data, invalid_input};
use crate::file_range_read;
use crate::file_range_read::read_file_range;
use crate::format::Superblock;
use crate::inode::InodeKind;
use crate::inode_codec;
use crate::inode_table;
use crate::inode_table::load_inode_table;
use crate::journal_checkpoint;
use crate::journal_checkpoint::recover_journal_and_checkpoint_checked;
use crate::journal_region;
use crate::path_lookup;
use crate::path_lookup::resolve_path_following_symlinks;
use crate::soundness;
use crate::step;
use crate::step::Step;

verus! {

/// Every byte of a file, or how it is refused.
pub open spec fn whole_file(disk: Disk, sb: Superblock, id: u64) -> Result<Seq<u8>, ErrorKind> {
    match inode_table::inodes_on(disk, sb) {
        Err(kind) => Err(kind),
        Ok(inodes) => match file_blocks::index_of(inodes, id) {
            None => Err(ErrorKind::InvalidData),
            Some(i) => if inodes[i].kind != InodeKind::File {
                Err(ErrorKind::InvalidInput)
            } else if inodes[i].byte_len == 0 {
                Ok(Seq::empty())
            } else if inodes[i].byte_len > usize::MAX {
                Err(ErrorKind::InvalidInput)
            } else {
                file_range_read::read_range(disk, sb, id, 0, 0, inodes[i].byte_len as int)
            },
        },
    }
}

/// Every byte of the file that a path names, once the journal is replayed and empty.
pub open spec fn read_at_step(disk: Disk, sb: Superblock, path: Seq<char>) -> Step<Seq<u8>> {
    journal_checkpoint::checked_then(
        disk,
        sb,
        |d: Disk|
            path_lookup::resolved_then(d, sb, path, |id: u64| step::stay(d, whole_file(d, sb, id))),
    )
}

/// The result of a request that hands back bytes.
pub open spec fn bytes_result(r: Result<Vec<u8>, Error>) -> Result<Seq<u8>, ErrorKind> {
    match r {
        Ok(data) => Ok(data@),
        Err(e) => Err(e.kind),
    }
}

/// Reads every byte of the regular file that a path names, up to its exact end, once the journal
/// is replayed and empty. The replay is inspected before it is carried out.
pub fn read_file_blocks_at_path<D: BlockDevice>(device: &mut D, superblock: &Superblock, path: &str) -> (r: Result<Vec<u8>, Error>)
    ensures
        old(device).blocks().len() > 0 ==> journal_region::carried_out(
            old(device),
            final(device),
            *superblock,
            bytes_result(r),
            read_at_step(old(device).blocks(), *superblock, path@),
        ),
        old(device).blocks().len() == 0 ==> r is Err && block::untouched(
            old(device),
            final(device),
        ),
{
    broadcast use journal_checkpoint::group_settled;

    recover_journal_and_checkpoint_checked(device, *superblock)?;
    let inode_id: u64 = resolve_path_following_symlinks(device, superblock, path)?;
    let inodes = load_inode_table(device, superblock)?;
    let index: usize = match find_inode(inodes.as_slice(), inode_id) {
        Some(i) => i,
        None => return Err(invalid_data("resolved inode is missing")),
    };
    if inodes[index].kind != InodeKind::File {
        return Err(invalid_input("resolved pathname is not a regular file"));
    }
    let byte_len: u64 = inodes[index].byte_len;
    if byte_len == 0 {
        let none: Vec<u8> = Vec::new();
        assert(none@ =~= Seq::<u8>::empty());
        return Ok(none);
    }
    if byte_len > usize::MAX as u64 {
        return Err(invalid_input("whole-file byte length exceeds platform address space"));
    }
    read_file_range(device, superblock, inode_id, 0, 0, byte_len as usize)
}

/// What is read at a path is every byte of the file that the path names, and reading settles the
/// journal and changes nothing else. A file without holes is read. The device has to be sound once
/// its journal is settled.
pub proof fn law_read_whole_at_path(disk: Disk, sb: Superblock, path: Seq<char>)
    requires
        soundness::sound_on(journal_checkpoint::checked_settle_step(disk, sb).disk, sb),
        journal_checkpoint::checked_settle_step(disk, sb).result is Ok,
    ensures
        ({
            let base = journal_checkpoint::checked_settle_step(disk, sb).disk;
            let t = soundness::tables_of(base, sb);
            let step = read_at_step(disk, sb, path);
            &&& step.disk == base
            &&& step.result matches Ok(data) ==> (path_lookup::file_at(base, sb, path) matches Ok(i)
                && data.len() == t.inodes[i].byte_len && forall|k: int|
                0 <= k < data.len() ==> #[trigger] data[k] == contents::byte_at(
                    base,
                    t.inodes[i],
                    k,
                ))
            &&& path_lookup::file_at(base, sb, path) matches Ok(i) ==> (t.inodes[i].byte_len
                <= usize::MAX && (forall|b: int|
                0 <= b < t.inodes[i].blocks.len() ==> #[trigger] t.inodes[i].blocks[b]
                    != inode_codec::SPARSE_HOLE_BLOCK) ==> step.result is Ok)
        }),
{
    let base = journal_checkpoint::checked_settle_step(disk, sb).disk;
    let t = soundness::tables_of(base, sb);
    soundness::lemma_sound_parts(base, sb);
    path_lookup::law_file_at(base, sb, path);
    if let Ok(id) = path_lookup::resolved(base, sb, path, true) {
        file_blocks::lemma_index_from(t.inodes, id, 0);
        if let Ok(i) = file_blocks::file_index(t.inodes, id) {
            let len = t.inodes[i].byte_len as int;
            assert(inode_codec::exact(t.inodes[i]));
            file_range_read::law_read_range(base, sb, id, 0, 0, len);
        }
    }
}

} // verus!
