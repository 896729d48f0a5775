//! What the block-level requests on files share: finding a file, taking and releasing blocks,
//! reading blocks that a file owns, and committing a new mapping with its data.

use vstd::prelude::*;
use vstd::slice::*;
use crate::allocation;
use crate::allocation::{AllocView, BlockAllocator};
use crate::allocation_disk;
use crate::allocation_disk::load_allocator;
use crate::block;
use crate::block::{Block, BlockDevice, Disk, BLOCK_SIZE};
use crate::bytes::same_bytes;
use crate::error::{Error, ErrorKind};
use crate::format::Superblock;
use crate::inode::InodeKind;
use crate::inode_codec;
use crate::inode_codec::{InodeView, PersistedInode};
use crate::inode_table;
use crate::inode_table::load_inode_table;
use crate::journal_region;
use crate::recovery;
use crate::recovery::{HomeWrite, RecoveryReport};
use crate::step;
use crate::step::Step;
use crate::update;
use crate::update::{store_update_and_checkpoint, Update};

verus! {

/// The first index from `from` on of the inode `id`, if there is one.
pub open spec fn index_from(inodes: Seq<InodeView>, id: u64, from: int) -> Option<int>
    decreases inodes.len() - from,
{
    if from >= inodes.len() {
        None
    } else if inodes[from].id == id {
        Some(from)
    } else {
        index_from(inodes, id, from + 1)
    }
}

/// The index of the inode `id`.
pub open spec fn index_of(inodes: Seq<InodeView>, id: u64) -> Option<int> {
    index_from(inodes, id, 0)
}

/// The index of the regular file `id`; a missing inode and one of another kind are refused.
pub open spec fn file_index(inodes: Seq<InodeView>, id: u64) -> Result<int, ErrorKind> {
    match index_of(inodes, id) {
        Some(i) => if inodes[i].kind == InodeKind::File {
            Ok(i)
        } else {
            Err(ErrorKind::InvalidInput)
        },
        None => Err(ErrorKind::InvalidInput),
    }
}

pub proof fn lemma_index_from(inodes: Seq<InodeView>, id: u64, from: int)
    requires
        0 <= from,
    ensures
        match index_from(inodes, id, from) {
            Some(i) => {
                &&& from <= i < inodes.len()
                &&& inodes[i].id == id
                &&& forall|j: int| from <= j < i ==> (#[trigger] inodes[j]).id != id
            },
            None => forall|j: int| from <= j < inodes.len() ==> (#[trigger] inodes[j]).id != id,
        },
    decreases inodes.len() - from,
{
    if from < inodes.len() && inodes[from].id != id {
        lemma_index_from(inodes, id, from + 1);
    }
}

/// Every block of the list is a data block in use.
pub open spec fn all_owned(a: AllocView, blocks: Seq<u64>) -> bool {
    forall|i: int| 0 <= i < blocks.len() ==> a.owns(#[trigger] blocks[i])
}

/// `count` fresh blocks: one run, or the lowest free blocks.
pub open spec fn fresh_blocks(a: AllocView, count: nat, contiguous: bool) -> Option<(AllocView, Seq<u64>)> {
    if contiguous {
        match a.taking_run(count) {
            Some((b, block)) => Some((b, AllocView::run_of(block, count))),
            None => None,
        }
    } else {
        a.taking(count)
    }
}

/// A mapping with one range exchanged for fresh blocks.
pub struct Spliced {
    pub allocator: AllocView,
    pub inode: InodeView,
    pub fresh: Seq<u64>,
    pub displaced: Seq<u64>,
}

/// Exchanges the range from `start` to `end` of a mapping for `count` fresh blocks. The fresh
/// blocks are taken before the displaced ones are released.
pub open spec fn splice(
    a: AllocView,
    inode: InodeView,
    start: int,
    end: int,
    count: nat,
    contiguous: bool,
) -> Result<Spliced, ErrorKind> {
    let displaced = inode.blocks.subrange(start, end);
    if !all_owned(a, displaced) {
        Err(ErrorKind::InvalidData)
    } else {
        match fresh_blocks(a, count, contiguous) {
            None => Err(ErrorKind::InvalidInput),
            Some((taken, fresh)) => match taken.releasing(displaced) {
                None => Err(ErrorKind::InvalidData),
                Some(allocator) => match inode_codec::replaced_range(inode, start, end, fresh) {
                    None => Err(ErrorKind::InvalidInput),
                    Some(next) => Ok(Spliced { allocator, inode: next, fresh, displaced }),
                },
            },
        }
    }
}

/// Each block with its new contents.
pub open spec fn paired(blocks: Seq<u64>, images: Seq<Seq<u8>>) -> Seq<HomeWrite> {
    Seq::new(blocks.len(), |i: int| (blocks[i], images[i]))
}

/// The contents of a list of blocks.
pub open spec fn image_views(images: Seq<Block>) -> Seq<Seq<u8>> {
    Seq::new(images.len(), |i: int| images[i]@)
}

/// The contents of blocks that are in use; none where one of them is not.
pub open spec fn snapshot(disk: Disk, a: AllocView, blocks: Seq<u64>) -> Option<Seq<Seq<u8>>> {
    if all_owned(a, blocks) {
        Some(Seq::new(blocks.len(), |i: int| disk[blocks[i] as int]))
    } else {
        None
    }
}

/// A range of a file's mapping exchanged for fresh blocks with given contents, as one transaction.
pub open spec fn splice_step(
    disk: Disk,
    sb: Superblock,
    a: AllocView,
    inodes: Seq<InodeView>,
    index: int,
    start: int,
    end: int,
    images: Seq<Seq<u8>>,
    contiguous: bool,
) -> Step<(Seq<u64>, Seq<u64>, RecoveryReport)> {
    match splice(a, inodes[index], start, end, images.len(), contiguous) {
        Err(kind) => step::stay(disk, Err(kind)),
        Ok(s) => {
            let u = Update {
                allocator: Some(s.allocator),
                inodes: Some(inodes.update(index, s.inode)),
                entries: None,
                data: paired(s.fresh, images),
            };
            let stored = update::settled_update_step(disk, sb, u, true);
            Step {
                disk: stored.disk,
                result: match stored.result {
                    Ok(report) => Ok((s.fresh, s.displaced, report)),
                    Err(kind) => Err(kind),
                },
            }
        },
    }
}

/// The result of a request that hands back two lists of blocks.
pub open spec fn block_lists(r: Result<(Vec<u64>, Vec<u64>, RecoveryReport), Error>) -> Result<(Seq<u64>, Seq<u64>, RecoveryReport), ErrorKind> {
    match r {
        Ok((a, b, report)) => Ok((a@, b@, report)),
        Err(e) => Err(e.kind),
    }
}

/// The result of a request that hands back one list of blocks.
pub open spec fn block_list(r: Result<(Vec<u64>, RecoveryReport), Error>) -> Result<(Seq<u64>, RecoveryReport), ErrorKind> {
    match r {
        Ok((a, report)) => Ok((a@, report)),
        Err(e) => Err(e.kind),
    }
}

/// The first of two lists.
pub open spec fn first_list(s: Step<(Seq<u64>, Seq<u64>, RecoveryReport)>) -> Step<(Seq<u64>, RecoveryReport)> {
    Step {
        disk: s.disk,
        result: match s.result {
            Ok((fresh, displaced, report)) => Ok((fresh, report)),
            Err(kind) => Err(kind),
        },
    }
}

pub(crate) fn invalid_input(message: &'static str) -> (e: Error)
    ensures
        e.kind == ErrorKind::InvalidInput,
        e.message == message,
{
    Error::new(ErrorKind::InvalidInput, message)
}

pub(crate) fn invalid_data(message: &'static str) -> (e: Error)
    ensures
        e.kind == ErrorKind::InvalidData,
        e.message == message,
{
    Error::new(ErrorKind::InvalidData, message)
}

/// Finds an inode by its identifier.
pub fn find_inode(inodes: &[PersistedInode], id: u64) -> (r: Option<usize>)
    ensures
        match r {
            Some(i) => i < inodes@.len() && index_of(inode_table::inode_views(inodes@), id) == Some(
                i as int,
            ),
            None => index_of(inode_table::inode_views(inodes@), id) is None,
        },
{
    let ghost views = inode_table::inode_views(inodes@);
    let mut i: usize = 0;
    while i < inodes.len()
        invariant
            i <= inodes@.len(),
            views == inode_table::inode_views(inodes@),
            index_of(views, id) == index_from(views, id, i as int),
        decreases inodes@.len() - i,
    {
        if inodes[i].id == id {
            return Some(i);
        }
        i += 1;
    }
    None
}

/// Finds a regular file by its identifier.
pub fn find_file(inodes: &[PersistedInode], id: u64) -> (r: Result<usize, Error>)
    ensures
        match r {
            Ok(i) => {
                &&& i < inodes@.len()
                &&& inodes@[i as int].kind == InodeKind::File
                &&& file_index(inode_table::inode_views(inodes@), id) == Ok::<int, ErrorKind>(
                    i as int,
                )
            },
            Err(e) => file_index(inode_table::inode_views(inodes@), id) == Err::<int, ErrorKind>(
                e.kind,
            ),
        },
{
    match find_inode(inodes, id) {
        Some(i) => if inodes[i].kind == InodeKind::File {
            Ok(i)
        } else {
            Err(invalid_input("file-data target must be a regular file"))
        },
        None => Err(invalid_input("file-data target inode is missing")),
    }
}

/// Whether every block of the list is in use.
pub fn are_owned(allocator: &BlockAllocator, blocks: &[u64]) -> (b: bool)
    ensures
        b == all_owned(allocator@, blocks@),
{
    let mut i: usize = 0;
    while i < blocks.len()
        invariant
            i <= blocks@.len(),
            forall|k: int| 0 <= k < i ==> allocator@.owns(#[trigger] blocks@[k]),
        decreases blocks@.len() - i,
    {
        match allocator.is_owned(blocks[i]) {
            Ok(owned) => if !owned {
                assert(!allocator@.owns(blocks@[i as int]));
                return false;
            },
            Err(_) => {
                assert(!allocator@.owns(blocks@[i as int]));
                return false;
            },
        }
        i += 1;
    }
    true
}

/// Reads blocks that must be in use.
pub fn snapshot_owned_blocks<D: BlockDevice>(device: &mut D, allocator: &BlockAllocator, blocks: &[u64]) -> (r: Result<Vec<Block>, Error>)
    requires
        allocator@.first + allocator@.owned.len() <= old(device).blocks().len(),
    ensures
        block::untouched(old(device), final(device)),
        match r {
            Ok(images) => snapshot(old(device).blocks(), allocator@, blocks@) == Some(
                image_views(images@),
            ),
            Err(e) => !old(device).healthy() || (snapshot(
                old(device).blocks(),
                allocator@,
                blocks@,
            ) is None && e.kind == ErrorKind::InvalidData),
        },
{
    if !are_owned(allocator, blocks) {
        return Err(invalid_data("referenced block is not allocator-owned"));
    }
    let mut images: Vec<Block> = Vec::new();
    let mut i: usize = 0;
    while i < blocks.len()
        invariant
            i <= blocks@.len(),
            block::untouched(old(device), device),
            allocator@.first + allocator@.owned.len() <= old(device).blocks().len(),
            all_owned(allocator@, blocks@),
            images@.len() == i,
            forall|k: int|
                0 <= k < i ==> (#[trigger] images@[k])@ == old(device).blocks()[blocks@[k] as int],
        decreases blocks@.len() - i,
    {
        let mut image: Block = [0u8; BLOCK_SIZE];
        assert(allocator@.owns(blocks@[i as int]));
        device.read_block(blocks[i], &mut image)?;
        images.push(image);
        i += 1;
    }
    assert(image_views(images@) =~= snapshot(old(device).blocks(), allocator@, blocks@)->Some_0);
    Ok(images)
}

/// Takes fresh blocks.
pub fn take_blocks(allocator: &mut BlockAllocator, count: usize, contiguous: bool) -> (r: Result<Vec<u64>, Error>)
    requires
        old(allocator)@.wf(),
    ensures
        final(allocator)@.wf(),
        match r {
            Ok(blocks) => fresh_blocks(old(allocator)@, count as nat, contiguous) == Some(
                (final(allocator)@, blocks@),
            ),
            Err(e) => fresh_blocks(old(allocator)@, count as nat, contiguous) is None && e.kind
                == ErrorKind::InvalidInput,
        },
{
    if !contiguous {
        return allocator.allocate_many(count);
    }
    let first: u64 = allocator.allocate_contiguous(count as u64)?;
    let mut blocks: Vec<u64> = Vec::new();
    let mut i: usize = 0;
    while i < count
        invariant
            i <= count,
            first + count <= u64::MAX,
            blocks@ == AllocView::run_of(first, i as nat),
        decreases count - i,
    {
        blocks.push(first + i as u64);
        i += 1;
        assert(blocks@ =~= AllocView::run_of(first, i as nat));
    }
    Ok(blocks)
}

/// Exchanges a range of a mapping for fresh blocks; returns the fresh and the displaced blocks.
pub fn splice_blocks(
    allocator: &mut BlockAllocator,
    inode: &mut PersistedInode,
    start: usize,
    end: usize,
    count: usize,
    contiguous: bool,
) -> (r: Result<(Vec<u64>, Vec<u64>), Error>)
    requires
        old(allocator)@.wf(),
        start <= end <= old(inode)@.blocks.len(),
    ensures
        final(allocator)@.wf(),
        match r {
            Ok((fresh, displaced)) => splice(
                old(allocator)@,
                old(inode)@,
                start as int,
                end as int,
                count as nat,
                contiguous,
            ) == Ok::<Spliced, ErrorKind>(
                Spliced {
                    allocator: final(allocator)@,
                    inode: final(inode)@,
                    fresh: fresh@,
                    displaced: displaced@,
                },
            ),
            Err(e) => splice(
                old(allocator)@,
                old(inode)@,
                start as int,
                end as int,
                count as nat,
                contiguous,
            ) == Err::<Spliced, ErrorKind>(e.kind),
        },
{
    let displaced: Vec<u64> = slice_to_vec(slice_subrange(inode.blocks.as_slice(), start, end));
    if !are_owned(allocator, displaced.as_slice()) {
        return Err(invalid_data("displaced block is not allocator-owned"));
    }
    let fresh = take_blocks(allocator, count, contiguous)?;
    match allocator.free_all(displaced.as_slice()) {
        Ok(_) => {},
        Err(_) => return Err(invalid_data("displaced block cannot be released")),
    }
    inode.replace_block_range(start..end, fresh.as_slice())?;
    Ok((fresh, displaced))
}

/// Pairs blocks with their new contents.
pub fn pair_blocks(blocks: &[u64], images: &[Block]) -> (r: Vec<(u64, Block)>)
    requires
        blocks@.len() == images@.len(),
    ensures
        recovery::write_views(r@) == paired(blocks@, image_views(images@)),
{
    let mut pairs: Vec<(u64, Block)> = Vec::new();
    let mut i: usize = 0;
    while i < blocks.len()
        invariant
            i <= blocks@.len() == images@.len(),
            pairs@.len() == i,
            forall|k: int|
                0 <= k < i ==> (#[trigger] pairs@[k]).0 == blocks@[k] && pairs@[k].1
                    == images@[k],
        decreases blocks@.len() - i,
    {
        pairs.push((blocks[i], images[i]));
        i += 1;
    }
    assert(recovery::write_views(pairs@) =~= paired(blocks@, image_views(images@)));
    pairs
}

pub proof fn lemma_views_update(inodes: Seq<PersistedInode>, next: Seq<PersistedInode>, index: int)
    requires
        0 <= index < inodes.len(),
        next.len() == inodes.len(),
        forall|i: int| 0 <= i < inodes.len() && i != index ==> #[trigger] next[i] == inodes[i],
    ensures
        inode_table::inode_views(next) == inode_table::inode_views(inodes).update(
            index,
            next[index]@,
        ),
{
    assert(inode_table::inode_views(next) =~= inode_table::inode_views(inodes).update(
        index,
        next[index]@,
    ));
}

pub proof fn lemma_fresh_len(a: AllocView, count: nat, contiguous: bool)
    requires
        a.wf(),
    ensures
        fresh_blocks(a, count, contiguous) matches Some((b, blocks)) ==> blocks.len() == count
            && count <= a.owned.len(),
{
    allocation::law_taking(a, count);
    if contiguous {
        allocation::lemma_next_run(a.owned, 0, count as int);
    } else if let Some((b, blocks)) = a.taking(count) {
        let numbers = blocks.map_values(|block: u64| block as int);
        let covered = vstd::set_lib::set_int_range(a.first as int, a.first + a.owned.len());
        assert(numbers.no_duplicates());
        numbers.unique_seq_to_set();
        vstd::set_lib::lemma_int_range(a.first as int, a.first + a.owned.len());
        assert(numbers.to_set().subset_of(covered)) by {
            assert forall|n: int| numbers.to_set().contains(n) implies covered.contains(n) by {
                let i = choose|i: int| 0 <= i < numbers.len() && numbers[i] == n;
                assert(a.covers(blocks[i]));
            }
        }
        vstd::set_lib::lemma_len_subset(numbers.to_set(), covered);
    }
}

/// Exchanges a range of a file's mapping for fresh blocks with given contents.
pub fn splice_file<D: BlockDevice>(
    device: &mut D,
    superblock: &Superblock,
    allocator: BlockAllocator,
    inodes: Vec<PersistedInode>,
    index: usize,
    start: usize,
    end: usize,
    images: &[Block],
    contiguous: bool,
) -> (r: Result<(Vec<u64>, Vec<u64>, RecoveryReport), Error>)
    requires
        allocator@.wf(),
        index < inodes@.len(),
        start <= end <= inodes@[index as int]@.blocks.len(),
    ensures
        journal_region::carried_out(
            old(device),
            final(device),
            *superblock,
            block_lists(r),
            splice_step(
                old(device).blocks(),
                *superblock,
                allocator@,
                inode_table::inode_views(inodes@),
                index as int,
                start as int,
                end as int,
                image_views(images@),
                contiguous,
            ),
        ),
{
    broadcast use journal_region::group_atomic;

    let mut allocator = allocator;
    let mut inodes = inodes;
    let ghost before = inodes@;
    proof {
        lemma_fresh_len(allocator@, images@.len(), contiguous);
    }
    let (fresh, displaced) = splice_blocks(
        &mut allocator,
        &mut inodes[index],
        start,
        end,
        images.len(),
        contiguous,
    )?;
    proof {
        lemma_views_update(before, inodes@, index as int);
    }
    let data = pair_blocks(fresh.as_slice(), images);
    let report = store_update_and_checkpoint(
        device,
        superblock,
        Some(&allocator),
        Some(inodes.as_slice()),
        None,
        data.as_slice(),
        true,
    )?;
    Ok((fresh, displaced, report))
}

/// The allocation state and the inodes of a device, or how the first of them is refused.
pub open spec fn tables_on(disk: Disk, sb: Superblock) -> Result<(AllocView, Seq<InodeView>), ErrorKind> {
    match allocation_disk::allocator_on(disk, sb) {
        Err(kind) => Err(kind),
        Ok(a) => match inode_table::inodes_on(disk, sb) {
            Err(kind) => Err(kind),
            Ok(inodes) => Ok((a, inodes)),
        },
    }
}

/// Loads the allocation state and the inodes.
pub fn load_tables<D: BlockDevice>(device: &mut D, superblock: &Superblock) -> (r: Result<(BlockAllocator, Vec<PersistedInode>), Error>)
    ensures
        block::untouched(old(device), final(device)),
        match r {
            Ok((a, inodes)) => {
                &&& tables_on(old(device).blocks(), *superblock) == Ok::<
                    (AllocView, Seq<InodeView>),
                    ErrorKind,
                >((a@, inode_table::inode_views(inodes@)))
                &&& superblock.fits(old(device).blocks())
                &&& a@.wf()
                &&& allocation_disk::matches_geometry(*superblock, a@)
                &&& a@.first + a@.owned.len() <= old(device).blocks().len()
            },
            Err(e) => !old(device).healthy() || tables_on(old(device).blocks(), *superblock)
                == Err::<(AllocView, Seq<InodeView>), ErrorKind>(e.kind),
        },
{
    let allocator = load_allocator(device, superblock)?;
    let inodes = load_inode_table(device, superblock)?;
    Ok((allocator, inodes))
}

/// A copy of a block with the bytes from `at` on replaced by `part`.
pub fn patched_block(image: &Block, at: usize, part: &[u8]) -> (r: Block)
    requires
        at + part@.len() <= BLOCK_SIZE,
    ensures
        r@ == crate::bytes::patch(image@, at as int, part@),
{
    broadcast use crate::bytes::group_bytes;

    let mut r: Block = *image;
    let mut i: usize = 0;
    while i < part.len()
        invariant
            at + part@.len() <= BLOCK_SIZE,
            i <= part@.len(),
            forall|k: int|
                0 <= k < BLOCK_SIZE ==> #[trigger] r@[k] == if at <= k < at + i {
                    part@[k - at]
                } else {
                    image@[k]
                },
        decreases part@.len() - i,
    {
        r[at + i] = part[i];
        i += 1;
    }
    assert(r@ =~= crate::bytes::patch(image@, at as int, part@));
    r
}

/// The blocks whose contents differ between `old` and `new`, each with its new contents.
pub open spec fn differing(blocks: Seq<u64>, old_images: Seq<Seq<u8>>, new_images: Seq<Seq<u8>>) -> Seq<HomeWrite>
    decreases blocks.len(),
{
    if blocks.len() == 0 {
        Seq::empty()
    } else {
        let last = blocks.len() - 1;
        let front = differing(blocks.drop_last(), old_images, new_images);
        if old_images[last] == new_images[last] {
            front
        } else {
            front.push((blocks[last], new_images[last]))
        }
    }
}

/// Collects the blocks whose contents differ.
pub fn differing_blocks(blocks: &[u64], old_images: &[Block], new_images: &[Block]) -> (r: Vec<(u64, Block)>)
    requires
        blocks@.len() == old_images@.len() == new_images@.len(),
    ensures
        recovery::write_views(r@) == differing(
            blocks@,
            image_views(old_images@),
            image_views(new_images@),
        ),
{
    let ghost before = image_views(old_images@);
    let ghost after = image_views(new_images@);
    let mut writes: Vec<(u64, Block)> = Vec::new();
    let mut i: usize = 0;
    assert(recovery::write_views(writes@) =~= Seq::<HomeWrite>::empty());
    while i < blocks.len()
        invariant
            i <= blocks@.len() == old_images@.len() == new_images@.len(),
            before == image_views(old_images@),
            after == image_views(new_images@),
            recovery::write_views(writes@) == differing(
                blocks@.subrange(0, i as int),
                before,
                after,
            ),
        decreases blocks@.len() - i,
    {
        proof {
            let next = blocks@.subrange(0, i + 1);
            assert(next.drop_last() =~= blocks@.subrange(0, i as int));
        }
        if !same_bytes(&old_images[i], &new_images[i]) {
            let ghost list = recovery::write_views(writes@);
            writes.push((blocks[i], new_images[i]));
            assert(recovery::write_views(writes@) =~= list.push((blocks@[i as int], new_images@[i as int]@)));
        }
        i += 1;
    }
    assert(blocks@.subrange(0, blocks@.len() as int) =~= blocks@);
    writes
}

/// Whether no block occurs twice in the list.
pub fn are_distinct(blocks: &[u64]) -> (b: bool)
    ensures
        b == blocks@.no_duplicates(),
{
    let mut i: usize = 0;
    while i < blocks.len()
        invariant
            i <= blocks@.len(),
            forall|a: int, b: int|
                0 <= a < b < blocks@.len() && a < i ==> #[trigger] blocks@[a] != #[trigger] blocks@[b],
        decreases blocks@.len() - i,
    {
        let mut j: usize = i + 1;
        while j < blocks.len()
            invariant
                i < j <= blocks@.len(),
                forall|b: int| i < b < j ==> blocks@[i as int] != #[trigger] blocks@[b],
            decreases blocks@.len() - j,
        {
            if blocks[i] == blocks[j] {
                return false;
            }
            j += 1;
        }
        i += 1;
    }
    true
}

/// Joins two lists of blocks.
pub fn join_blocks(a: &[u64], b: &[u64]) -> (r: Vec<u64>)
    ensures
        r@ == a@ + b@,
{
    let mut r: Vec<u64> = slice_to_vec(a);
    let mut rest: Vec<u64> = slice_to_vec(b);
    r.append(&mut rest);
    r
}

/// Copies a range of a mapping.
pub fn mapping_range(inode: &PersistedInode, start: usize, end: usize) -> (r: Vec<u64>)
    requires
        start <= end <= inode@.blocks.len(),
    ensures
        r@ == inode@.blocks.subrange(start as int, end as int),
{
    slice_to_vec(slice_subrange(inode.blocks.as_slice(), start, end))
}

/// New inodes as one transaction that is taken out of the journal once it is home.
pub open spec fn inodes_step(disk: Disk, sb: Superblock, inodes: Seq<InodeView>, always: bool) -> Step<RecoveryReport> {
    update::settled_update_step(
        disk,
        sb,
        Update { allocator: None, inodes: Some(inodes), entries: None, data: Seq::empty() },
        always,
    )
}

/// Stores new inodes as one transaction and empties the journal.
pub fn publish_inodes<D: BlockDevice>(device: &mut D, superblock: &Superblock, inodes: &[PersistedInode], always: bool) -> (r: Result<RecoveryReport, Error>)
    ensures
        journal_region::carried_out(
            old(device),
            final(device),
            *superblock,
            step::kinded(r),
            inodes_step(
                old(device).blocks(),
                *superblock,
                inode_table::inode_views(inodes@),
                always,
            ),
        ),
{
    let none: Vec<(u64, Block)> = Vec::new();
    assert(recovery::write_views(none@) =~= Seq::<HomeWrite>::empty());
    store_update_and_checkpoint(
        device,
        superblock,
        None,
        Some(inodes),
        None,
        none.as_slice(),
        always,
    )
}

} // verus!
