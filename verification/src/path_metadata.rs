//! What a path names.

use vstd::prelude::*;
use crate::block::{BlockDevice, Disk};
use crate::error::{Error, ErrorKind};
use crate::file_blocks;
use crate::file_blocks::{find_inode, invalid_data};
use crate::format::Superblock;
use crate::inode::InodeKind;
use crate::inode_table;
use crate::inode_table::load_inode_table;
use crate::journal_checkpoint;
use crate::journal_checkpoint::recover_journal_and_checkpoint;
use crate::journal_region;
use crate::path_lookup;
use crate::path_lookup::resolve_path_following_symlinks;
use crate::path_resolution;
use crate::soundness;
use crate::step;
use crate::step::Step;

verus! {

/// The inode that a path names: identifier, kind, number of logical blocks and byte length.
#[derive(Clone, Copy, Debug, PartialEq, Eq, Structural)]
pub struct PathMetadata {
    pub inode_id: u64,
    pub kind: InodeKind,
    pub logical_blocks: usize,
    pub byte_len: u64,
}

/// The metadata of an inode, or how it is refused.
pub open spec fn metadata_of(disk: Disk, sb: Superblock, id: u64) -> Result<PathMetadata, ErrorKind> {
    match inode_table::inodes_on(disk, sb) {
        Err(kind) => Err(kind),
        Ok(inodes) => match file_blocks::index_of(inodes, id) {
            None => Err(ErrorKind::InvalidData),
            Some(i) => Ok(
                PathMetadata {
                    inode_id: id,
                    kind: inodes[i].kind,
                    logical_blocks: inodes[i].blocks.len() as usize,
                    byte_len: inodes[i].byte_len,
                },
            ),
        },
    }
}

/// The metadata of what a path names, once the journal is replayed and empty.
pub open spec fn metadata_step(disk: Disk, sb: Superblock, path: Seq<char>) -> Step<PathMetadata> {
    journal_checkpoint::settled_then(
        disk,
        sb,
        |d: Disk|
            path_lookup::resolved_then(d, sb, path, |id: u64| step::stay(d, metadata_of(d, sb, id))),
    )
}

/// Looks up what a path names, following symbolic links, once the journal is replayed and empty.
pub fn metadata_at_path<D: BlockDevice>(device: &mut D, superblock: &Superblock, path: &str) -> (r: Result<PathMetadata, Error>)
    ensures
        journal_region::carried_out(
            old(device),
            final(device),
            *superblock,
            step::kinded(r),
            metadata_step(old(device).blocks(), *superblock, path@),
        ),
{
    broadcast use journal_checkpoint::group_settled;

    recover_journal_and_checkpoint(device, *superblock)?;
    let inode_id: u64 = resolve_path_following_symlinks(device, superblock, path)?;
    let inodes = load_inode_table(device, superblock)?;
    match find_inode(inodes.as_slice(), inode_id) {
        Some(i) => Ok(
            PathMetadata {
                inode_id,
                kind: inodes[i].kind,
                logical_blocks: inodes[i].blocks.len(),
                byte_len: inodes[i].byte_len,
            },
        ),
        None => Err(invalid_data("resolved inode is missing from inode table")),
    }
}

/// The metadata of a path are those of the inode that it names: its identifier, its kind, how many
/// blocks it has and its length. Reading them settles the journal and changes nothing else, and
/// whatever a path names has metadata. The device has to be sound once its journal is settled.
pub proof fn law_metadata_at_path(disk: Disk, sb: Superblock, path: Seq<char>)
    requires
        soundness::sound_on(journal_checkpoint::settle_step(disk, sb).disk, sb),
        journal_checkpoint::settle_step(disk, sb).result is Ok,
    ensures
        ({
            let base = journal_checkpoint::settle_step(disk, sb).disk;
            let t = soundness::tables_of(base, sb);
            let step = metadata_step(disk, sb, path);
            &&& step.disk == base
            &&& match path_lookup::resolved(base, sb, path, true) {
                Err(kind) => step.result == Err::<PathMetadata, ErrorKind>(kind),
                Ok(id) => step.result matches Ok(m) && m.inode_id == id && exists|i: int|
                    0 <= i < t.inodes.len() && (#[trigger] t.inodes[i]).id == id && m.kind
                        == t.inodes[i].kind && m.logical_blocks == t.inodes[i].blocks.len()
                        && m.byte_len == t.inodes[i].byte_len,
            }
        }),
{
    let base = journal_checkpoint::settle_step(disk, sb).disk;
    let t = soundness::tables_of(base, sb);
    soundness::lemma_sound_parts(base, sb);
    inode_table::lemma_inodes_exact(base, sb);
    if let Ok(id) = path_lookup::resolved(base, sb, path, true) {
        path_resolution::lemma_named(base, sb, path, true);
        file_blocks::lemma_index_from(t.inodes, id, 0);
        let i = file_blocks::index_of(t.inodes, id)->Some_0;
        assert(t.inodes[i].id == id);
    }
}

} // verus!
