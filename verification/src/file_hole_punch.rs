//! Punching holes: bytes of a file become zero, and blocks that hold nothing else are released.

use vstd::prelude::*;
use vstd::slice::*;
use crate::allocation::{AllocView, BlockAllocator};
use crate::allocation;
use crate::block;
use crate::block::{Block, BlockDevice, Disk, BLOCK_SIZE, BLOCK_SIZE_U64};
use crate::bytes::same_bytes;
use crate::contents;
use crate::create_data_tx;
use crate::error::{Error, ErrorKind};
use crate::file_blocks;
use crate::file_blocks::{find_file, invalid_data, invalid_input, load_tables};
use crate::format::Superblock;
use crate::fsck;
use crate::fsck::check_device;
use crate::inode::InodeKind;
use crate::inode_codec;
use crate::inode_codec::{InodeView, PersistedInode, SPARSE_HOLE_BLOCK};
use crate::inode_table;
use crate::journal_region;
use crate::ownership;
use crate::recovery;
use crate::recovery::{HomeWrite, RecoveryReport};
use crate::soundness;
use crate::step;
use crate::step::Step;
use crate::update;
use crate::update::{store_update_and_checkpoint, Update};

verus! {

/// What a punch did: the released storage blocks in ascending order, the logical blocks that
/// became holes, the logical blocks of which a part was zeroed, and the transaction.
#[derive(Clone, Debug, Default, PartialEq, Eq)]
pub struct HolePunchReport {
    pub released_blocks: Vec<u64>,
    pub punched_logical_blocks: Vec<usize>,
    pub zeroed_edge_blocks: Vec<usize>,
    pub transaction: RecoveryReport,
}

/// The report of a punch as a value.
pub struct PunchView {
    pub released: Seq<u64>,
    pub punched: Seq<usize>,
    pub edges: Seq<usize>,
    pub transaction: RecoveryReport,
}

impl View for HolePunchReport {
    type V = PunchView;

    open spec fn view(&self) -> PunchView {
        PunchView {
            released: self.released_blocks@,
            punched: self.punched_logical_blocks@,
            edges: self.zeroed_edge_blocks@,
            transaction: self.transaction,
        }
    }
}

/// `x` put into a list in front of the larger numbers at its end.
pub open spec fn put_ascending(list: Seq<u64>, x: u64) -> Seq<u64>
    decreases list.len(),
{
    if list.len() == 0 || list.last() <= x {
        list.push(x)
    } else {
        put_ascending(list.drop_last(), x).push(list.last())
    }
}

/// A list in ascending order.
pub open spec fn ascending(list: Seq<u64>) -> Seq<u64>
    decreases list.len(),
{
    if list.len() == 0 {
        list
    } else {
        put_ascending(ascending(list.drop_last()), list.last())
    }
}

/// A write put into a list in front of the writes to higher blocks at its end.
pub open spec fn put_write(list: Seq<HomeWrite>, w: HomeWrite) -> Seq<HomeWrite>
    decreases list.len(),
{
    if list.len() == 0 || list.last().0 <= w.0 {
        list.push(w)
    } else {
        put_write(list.drop_last(), w).push(list.last())
    }
}

/// Where the bytes of logical block `k` that a reader sees end.
pub open spec fn visible_end(k: int, len: int) -> int {
    if (k + 1) * BLOCK_SIZE < len {
        (k + 1) * BLOCK_SIZE
    } else {
        len
    }
}

/// The punch from `offset` to `end` covers every byte of logical block `k` that a reader sees.
pub open spec fn covers(k: int, offset: int, end: int, len: int) -> bool {
    offset <= k * BLOCK_SIZE && visible_end(k, len) <= end
}

/// Logical block `k` with the punched bytes zeroed.
pub open spec fn zeroed(image: Seq<u8>, k: int, offset: int, end: int) -> Seq<u8> {
    Seq::new(
        BLOCK_SIZE as nat,
        |i: int|
            if offset <= k * BLOCK_SIZE + i < end {
                0u8
            } else {
                image[i]
            },
    )
}

/// The lists that a punch builds up, one logical block after the other.
pub struct PunchLists {
    pub released: Seq<u64>,
    pub punched: Seq<usize>,
    pub edges: Seq<usize>,
    pub writes: Seq<HomeWrite>,
}

/// The lists for the logical blocks `from` up to `to`.
pub open spec fn punch_lists(disk: Disk, blocks: Seq<u64>, len: int, offset: int, end: int, from: int, to: int) -> PunchLists
    decreases to - from,
{
    if to <= from {
        PunchLists {
            released: Seq::empty(),
            punched: Seq::empty(),
            edges: Seq::empty(),
            writes: Seq::empty(),
        }
    } else {
        let k = to - 1;
        let front = punch_lists(disk, blocks, len, offset, end, from, k);
        let image = disk[blocks[k] as int];
        let next = zeroed(image, k, offset, end);
        if blocks[k] == SPARSE_HOLE_BLOCK {
            front
        } else if covers(k, offset, end, len) {
            PunchLists {
                released: front.released.push(blocks[k]),
                punched: front.punched.push(k as usize),
                ..front
            }
        } else if next == image {
            front
        } else {
            PunchLists {
                edges: front.edges.push(k as usize),
                writes: put_write(front.writes, (blocks[k], next)),
                ..front
            }
        }
    }
}

/// The part of a mapping from `from` to `to` with every covered block a hole.
pub open spec fn holed(blocks: Seq<u64>, len: int, offset: int, end: int, from: int, to: int) -> Seq<u64> {
    Seq::new(
        (to - from) as nat,
        |i: int|
            if covers(from + i, offset, end, len) {
                SPARSE_HOLE_BLOCK
            } else {
                blocks[from + i]
            },
    )
}

/// Every block of the mapping from `from` to `to` is a hole or in use.
pub open spec fn stored_owned(a: AllocView, blocks: Seq<u64>, from: int, to: int) -> bool {
    forall|k: int|
        from <= k < to ==> #[trigger] blocks[k] == SPARSE_HOLE_BLOCK || a.owns(blocks[k])
}

/// A file after a punch.
pub struct Punched {
    pub allocator: AllocView,
    pub inode: InodeView,
    pub lists: PunchLists,
}

/// The punch of `len` bytes at `offset` of a file; nothing where no byte changes.
pub open spec fn punch(disk: Disk, a: AllocView, inode: InodeView, offset: int, len: int) -> Result<Option<Punched>, ErrorKind> {
    let end = offset + len;
    match inode_codec::checked_len(inode, true) {
        None => Err(ErrorKind::InvalidData),
        Some(eof) => {
            let from = offset / (BLOCK_SIZE as int);
            let to = (end - 1) / (BLOCK_SIZE as int) + 1;
            let lists = punch_lists(disk, inode.blocks, eof as int, offset, end, from, to);
            if end > eof {
                Err(ErrorKind::InvalidInput)
            } else if !stored_owned(a, inode.blocks, from, to) {
                Err(ErrorKind::InvalidData)
            } else {
                match a.releasing(lists.released) {
                    None => Err(ErrorKind::InvalidData),
                    Some(allocator) => match inode_codec::replaced_range(
                        inode,
                        from,
                        to,
                        holed(inode.blocks, eof as int, offset, end, from, to),
                    ) {
                        None => Err(ErrorKind::InvalidInput),
                        Some(next) => if lists.released.len() == 0 && lists.writes.len() == 0 {
                            Ok(None)
                        } else {
                            Ok(Some(Punched { allocator, inode: next, lists }))
                        },
                    },
                }
            }
        },
    }
}

/// The report of a punch whose transaction reported `transaction`.
pub open spec fn punch_report(lists: PunchLists, transaction: RecoveryReport) -> PunchView {
    PunchView {
        released: ascending(lists.released),
        punched: lists.punched,
        edges: lists.edges,
        transaction,
    }
}

/// The report of a punch that changes nothing.
pub open spec fn empty_punch() -> PunchView {
    PunchView {
        released: Seq::empty(),
        punched: Seq::empty(),
        edges: Seq::empty(),
        transaction: recovery::no_recovery(),
    }
}

/// A punch as one transaction, after which the file system must pass a strict inspection.
pub open spec fn punch_step(disk: Disk, sb: Superblock, id: u64, offset: int, len: int) -> Step<PunchView> {
    if len == 0 || offset + len > u64::MAX {
        step::stay(disk, Err(ErrorKind::InvalidInput))
    } else {
        match file_blocks::tables_on(disk, sb) {
            Err(kind) => step::stay(disk, Err(kind)),
            Ok((a, inodes)) => match file_blocks::file_index(inodes, id) {
                Err(kind) => step::stay(disk, Err(kind)),
                Ok(i) => match punch(disk, a, inodes[i], offset, len) {
                    Err(kind) => step::stay(disk, Err(kind)),
                    Ok(None) => step::stay(disk, Ok(empty_punch())),
                    Ok(Some(p)) => {
                        let u = Update {
                            allocator: Some(p.allocator),
                            inodes: Some(inodes.update(i, p.inode)),
                            entries: None,
                            data: p.lists.writes,
                        };
                        let stored = update::settled_update_step(disk, sb, u, false);
                        Step {
                            disk: stored.disk,
                            result: match stored.result {
                                Err(kind) => Err(kind),
                                Ok(report) => if report.committed_transactions == 0 {
                                    Ok(punch_report(p.lists, report))
                                } else {
                                    match fsck::checked(stored.disk) {
                                        Err(kind) => Err(kind),
                                        Ok(_) => Ok(punch_report(p.lists, report)),
                                    }
                                },
                            },
                        }
                    },
                },
            },
        }
    }
}

proof fn lemma_put_ascending(list: Seq<u64>, x: u64, p: int)
    requires
        0 <= p <= list.len(),
        forall|i: int| p <= i < list.len() ==> #[trigger] list[i] > x,
        p > 0 ==> list[p - 1] <= x,
    ensures
        put_ascending(list, x) == list.insert(p, x),
    decreases list.len(),
{
    if p == list.len() {
        assert(list.insert(p, x) =~= list.push(x));
    } else {
        lemma_put_ascending(list.drop_last(), x, p);
        assert(list.insert(p, x) =~= list.drop_last().insert(p, x).push(list.last()));
    }
}

proof fn lemma_put_write(list: Seq<HomeWrite>, w: HomeWrite, p: int)
    requires
        0 <= p <= list.len(),
        forall|i: int| p <= i < list.len() ==> (#[trigger] list[i]).0 > w.0,
        p > 0 ==> list[p - 1].0 <= w.0,
    ensures
        put_write(list, w) == list.insert(p, w),
    decreases list.len(),
{
    if p == list.len() {
        assert(list.insert(p, w) =~= list.push(w));
    } else {
        lemma_put_write(list.drop_last(), w, p);
        assert(list.insert(p, w) =~= list.drop_last().insert(p, w).push(list.last()));
    }
}

proof fn lemma_put_ascending_sorted(list: Seq<u64>, x: u64)
    requires
        forall|i: int, j: int| 0 <= i < j < list.len() ==> #[trigger] list[i] <= #[trigger] list[j],
    ensures
        put_ascending(list, x).len() == list.len() + 1,
        forall|i: int, j: int|
            0 <= i < j < list.len() + 1 ==> #[trigger] put_ascending(list, x)[i]
                <= #[trigger] put_ascending(list, x)[j],
        put_ascending(list, x).to_multiset() == list.push(x).to_multiset(),
        list.len() > 0 ==> put_ascending(list, x).last() >= list.last(),
        put_ascending(list, x).last() >= x,
        put_ascending(list, x).last() == x || (list.len() > 0 && put_ascending(list, x).last()
            == list.last()),
    decreases list.len(),
{
    broadcast use vstd::seq_lib::group_to_multiset_ensures;

    if list.len() > 0 && list.last() > x {
        let front = list.drop_last();
        lemma_put_ascending_sorted(front, x);
        let inner = put_ascending(front, x);
        if front.len() > 0 {
            assert(list[front.len() - 1] <= list[front.len() as int]);
        }
        assert(list =~= front.push(list.last()));
        assert(list.push(x).to_multiset() =~= put_ascending(list, x).to_multiset());
    }
}

/// Sorting keeps the blocks and puts them in ascending order.
pub proof fn law_ascending(list: Seq<u64>)
    ensures
        ascending(list).to_multiset() == list.to_multiset(),
        forall|i: int, j: int|
            0 <= i < j < ascending(list).len() ==> #[trigger] ascending(list)[i]
                <= #[trigger] ascending(list)[j],
    decreases list.len(),
{
    broadcast use vstd::seq_lib::group_to_multiset_ensures;

    if list.len() > 0 {
        law_ascending(list.drop_last());
        lemma_put_ascending_sorted(ascending(list.drop_last()), list.last());
        assert(list =~= list.drop_last().push(list.last()));
        assert(ascending(list).to_multiset() =~= list.to_multiset());
    }
}

fn sort_ascending(list: &[u64]) -> (r: Vec<u64>)
    ensures
        r@ == ascending(list@),
{
    let mut sorted: Vec<u64> = Vec::new();
    let mut k: usize = 0;
    assert(list@.subrange(0, 0) =~= Seq::<u64>::empty());
    assert(sorted@ =~= ascending(list@.subrange(0, 0)));
    while k < list.len()
        invariant
            k <= list@.len(),
            sorted@ == ascending(list@.subrange(0, k as int)),
        decreases list@.len() - k,
    {
        let x: u64 = list[k];
        let mut p: usize = sorted.len();
        while p > 0 && sorted[p - 1] > x
            invariant
                p <= sorted@.len(),
                forall|i: int| p <= i < sorted@.len() ==> #[trigger] sorted@[i] > x,
            decreases p,
        {
            p -= 1;
        }
        proof {
            lemma_put_ascending(sorted@, x, p as int);
            let next = list@.subrange(0, k + 1);
            assert(next.drop_last() =~= list@.subrange(0, k as int));
        }
        sorted.insert(p, x);
        k += 1;
    }
    assert(list@.subrange(0, list@.len() as int) =~= list@);
    sorted
}

fn insert_write(list: &mut Vec<(u64, Block)>, block: u64, image: Block)
    ensures
        recovery::write_views(final(list)@) == put_write(
            recovery::write_views(old(list)@),
            (block, image@),
        ),
{
    let ghost views = recovery::write_views(list@);
    let mut p: usize = list.len();
    while p > 0 && list[p - 1].0 > block
        invariant
            p <= list@.len(),
            views == recovery::write_views(list@),
            *list == *old(list),
            forall|i: int| p <= i < views.len() ==> (#[trigger] views[i]).0 > block,
        decreases p,
    {
        p -= 1;
        assert(views[p as int].0 == list@[p as int].0);
    }
    proof {
        if p > 0 {
            assert(views[p - 1].0 == list@[p - 1].0);
        }
        lemma_put_write(views, (block, image@), p as int);
    }
    list.insert(p, (block, image));
    assert(recovery::write_views(list@) =~= views.insert(p as int, (block, image@)));
}

/// A copy of logical block `k` with the punched bytes zeroed.
fn zero_edge(image: &Block, k: u64, offset: u64, end: u64) -> (r: Block)
    requires
        k * BLOCK_SIZE + BLOCK_SIZE <= u64::MAX,
    ensures
        r@ == zeroed(image@, k as int, offset as int, end as int),
{
    let base: u64 = k * BLOCK_SIZE_U64;
    let mut r: Block = *image;
    let mut i: usize = 0;
    while i < BLOCK_SIZE
        invariant
            base == k * BLOCK_SIZE,
            base + BLOCK_SIZE <= u64::MAX,
            i <= BLOCK_SIZE,
            forall|j: int|
                0 <= j < BLOCK_SIZE ==> #[trigger] r@[j] == if j < i {
                    zeroed(image@, k as int, offset as int, end as int)[j]
                } else {
                    image@[j]
                },
        decreases BLOCK_SIZE - i,
    {
        let p: u64 = base + i as u64;
        if offset <= p && p < end {
            r[i] = 0;
        }
        i += 1;
    }
    assert(r@ =~= zeroed(image@, k as int, offset as int, end as int));
    r
}

fn is_covered(k: u64, offset: u64, end: u64, len: u64) -> (b: bool)
    requires
        k * BLOCK_SIZE + BLOCK_SIZE <= u64::MAX,
    ensures
        b == covers(k as int, offset as int, end as int, len as int),
{
    let start: u64 = k * BLOCK_SIZE_U64;
    let block_end: u64 = start + BLOCK_SIZE_U64;
    let visible: u64 = if block_end < len {
        block_end
    } else {
        len
    };
    offset <= start && visible <= end
}

/// The executable lists of a punch.
struct Lists {
    released: Vec<u64>,
    punched: Vec<usize>,
    edges: Vec<usize>,
    writes: Vec<(u64, Block)>,
    mapping: Vec<u64>,
}

impl Lists {
    spec fn lists(&self) -> PunchLists {
        PunchLists {
            released: self.released@,
            punched: self.punched@,
            edges: self.edges@,
            writes: recovery::write_views(self.writes@),
        }
    }
}

/// Goes through the logical blocks that a punch touches.
fn collect_lists<D: BlockDevice>(
    device: &mut D,
    allocator: &BlockAllocator,
    blocks: &[u64],
    len: u64,
    offset: u64,
    end: u64,
    from: usize,
    to: usize,
) -> (r: Result<Lists, Error>)
    requires
        allocator@.first + allocator@.owned.len() <= old(device).blocks().len(),
        from <= to <= blocks@.len(),
        blocks@.len() * BLOCK_SIZE <= u64::MAX,
    ensures
        block::untouched(old(device), final(device)),
        match r {
            Ok(lists) => {
                &&& stored_owned(allocator@, blocks@, from as int, to as int)
                &&& lists.lists() == punch_lists(
                    old(device).blocks(),
                    blocks@,
                    len as int,
                    offset as int,
                    end as int,
                    from as int,
                    to as int,
                )
                &&& lists.mapping@ == holed(
                    blocks@,
                    len as int,
                    offset as int,
                    end as int,
                    from as int,
                    to as int,
                )
            },
            Err(e) => !old(device).healthy() || (!stored_owned(
                allocator@,
                blocks@,
                from as int,
                to as int,
            ) && e.kind == ErrorKind::InvalidData),
        },
{
    let ghost disk = device.blocks();
    let mut lists = Lists {
        released: Vec::new(),
        punched: Vec::new(),
        edges: Vec::new(),
        writes: Vec::new(),
        mapping: Vec::new(),
    };
    let mut k: usize = from;
    proof {
        let none = punch_lists(disk, blocks@, len as int, offset as int, end as int, from as int, from as int);
        assert(lists.released@ =~= none.released);
        assert(lists.punched@ =~= none.punched);
        assert(lists.edges@ =~= none.edges);
        assert(recovery::write_views(lists.writes@) =~= none.writes);
        assert(lists.mapping@ =~= holed(blocks@, len as int, offset as int, end as int, from as int, from as int));
    }
    while k < to
        invariant
            disk == old(device).blocks(),
            block::untouched(old(device), device),
            allocator@.first + allocator@.owned.len() <= disk.len(),
            from <= k <= to <= blocks@.len(),
            blocks@.len() * BLOCK_SIZE <= u64::MAX,
            stored_owned(allocator@, blocks@, from as int, k as int),
            lists.lists() == punch_lists(
                disk,
                blocks@,
                len as int,
                offset as int,
                end as int,
                from as int,
                k as int,
            ),
            lists.mapping@ == holed(
                blocks@,
                len as int,
                offset as int,
                end as int,
                from as int,
                k as int,
            ),
        decreases to - k,
    {
        let block: u64 = blocks[k];
        let covered = is_covered(k as u64, offset, end, len);
        if block != SPARSE_HOLE_BLOCK {
            match allocator.is_owned(block) {
                Ok(owned) => if !owned {
                    assert(!allocator@.owns(blocks@[k as int]));
                    return Err(invalid_data("hole-punch physical block is not allocator-owned"));
                },
                Err(_) => {
                    assert(!allocator@.owns(blocks@[k as int]));
                    return Err(invalid_data("hole-punch physical block is no data block"));
                },
            }
            if covered {
                lists.released.push(block);
                lists.punched.push(k);
            } else {
                let mut image: Block = [0u8; BLOCK_SIZE];
                device.read_block(block, &mut image)?;
                let next: Block = zero_edge(&image, k as u64, offset, end);
                if !same_bytes(&next, &image) {
                    lists.edges.push(k);
                    insert_write(&mut lists.writes, block, next);
                }
            }
        }
        if covered {
            lists.mapping.push(SPARSE_HOLE_BLOCK);
        } else {
            lists.mapping.push(block);
        }
        k += 1;
        assert(lists.mapping@ =~= holed(
            blocks@,
            len as int,
            offset as int,
            end as int,
            from as int,
            k as int,
        ));
    }
    Ok(lists)
}

/// Plans a punch: the allocator and the inode are changed in place; nothing is returned where no
/// byte changes.
fn prepare_hole_punch<D: BlockDevice>(
    device: &mut D,
    allocator: &mut BlockAllocator,
    inode: &mut PersistedInode,
    offset: u64,
    len: u64,
) -> (r: Result<Option<Lists>, Error>)
    requires
        old(allocator)@.wf(),
        old(allocator)@.first + old(allocator)@.owned.len() <= old(device).blocks().len(),
        old(inode)@.kind == InodeKind::File,
        len > 0,
        offset + len <= u64::MAX,
    ensures
        block::untouched(old(device), final(device)),
        match r {
            Ok(Some(lists)) => punch(
                old(device).blocks(),
                old(allocator)@,
                old(inode)@,
                offset as int,
                len as int,
            ) == Ok::<Option<Punched>, ErrorKind>(
                Some(
                    Punched {
                        allocator: final(allocator)@,
                        inode: final(inode)@,
                        lists: lists.lists(),
                    },
                ),
            ),
            Ok(None) => punch(
                old(device).blocks(),
                old(allocator)@,
                old(inode)@,
                offset as int,
                len as int,
            ) == Ok::<Option<Punched>, ErrorKind>(None),
            Err(e) => !old(device).healthy() || punch(
                old(device).blocks(),
                old(allocator)@,
                old(inode)@,
                offset as int,
                len as int,
            ) == Err::<Option<Punched>, ErrorKind>(e.kind),
        },
{
    let end: u64 = offset + len;
    let byte_len: u64 = match inode.canonical_byte_len() {
        Ok(n) => n,
        Err(_) => return Err(invalid_data("hole-punch inode is invalid")),
    };
    if end > byte_len {
        return Err(invalid_input("hole-punch range extends beyond EOF"));
    }
    assert(inode.blocks.len() == inode.blocks@.len());
    assert((end - 1) / BLOCK_SIZE_U64 as int + 1 <= inode.blocks@.len());
    let from: usize = (offset / BLOCK_SIZE_U64) as usize;
    let to: usize = ((end - 1) / BLOCK_SIZE_U64 + 1) as usize;
    let lists = collect_lists(
        device,
        allocator,
        inode.blocks.as_slice(),
        byte_len,
        offset,
        end,
        from,
        to,
    )?;
    match allocator.free_all(lists.released.as_slice()) {
        Ok(_) => {},
        Err(_) => return Err(invalid_data("hole-punch block cannot be released")),
    }
    inode.replace_block_range(from..to, lists.mapping.as_slice())?;
    if lists.released.is_empty() && lists.writes.is_empty() {
        return Ok(None);
    }
    Ok(Some(lists))
}

/// The result of a punch with its lists as values.
pub open spec fn punch_result(r: Result<HolePunchReport, Error>) -> Result<PunchView, ErrorKind> {
    match r {
        Ok(report) => Ok(report@),
        Err(e) => Err(e.kind),
    }
}

/// Makes a byte range inside a regular file zero as one transaction. Every logical block whose
/// visible bytes are all covered becomes a hole and its storage is released; of the others only
/// the covered bytes are zeroed. The length of the file does not change.
pub fn punch_file_hole_journaled<D: BlockDevice>(device: &mut D, superblock: &Superblock, inode_id: u64, offset: u64, len: u64) -> (r: Result<HolePunchReport, Error>)
    ensures
        journal_region::carried_out(
            old(device),
            final(device),
            *superblock,
            punch_result(r),
            punch_step(old(device).blocks(), *superblock, inode_id, offset as int, len as int),
        ),
        step::turned_away(
            old(device),
            final(device),
            punch_result(r),
            len == 0 || offset + len > u64::MAX,
        ),
{
    broadcast use journal_region::group_atomic;

    if len == 0 {
        return Err(invalid_input("hole-punch range must be non-empty"));
    }
    if len > u64::MAX - offset {
        return Err(invalid_input("hole-punch byte range overflow"));
    }
    let (mut allocator, mut inodes) = load_tables(device, superblock)?;
    let index: usize = find_file(inodes.as_slice(), inode_id)?;
    let ghost before = inodes@;
    let plan = prepare_hole_punch(device, &mut allocator, &mut inodes[index], offset, len)?;
    let lists = match plan {
        Some(lists) => lists,
        None => {
            let report = HolePunchReport {
                released_blocks: Vec::new(),
                punched_logical_blocks: Vec::new(),
                zeroed_edge_blocks: Vec::new(),
                transaction: RecoveryReport::default(),
            };
            assert(report@.released =~= empty_punch().released);
            assert(report@.punched =~= empty_punch().punched);
            assert(report@.edges =~= empty_punch().edges);
            return Ok(report);
        },
    };
    proof {
        file_blocks::lemma_views_update(before, inodes@, index as int);
    }
    let transaction = store_update_and_checkpoint(
        device,
        superblock,
        Some(&allocator),
        Some(inodes.as_slice()),
        None,
        lists.writes.as_slice(),
        false,
    )?;
    if transaction.committed_transactions != 0 {
        check_device(device)?;
    }
    Ok(
        HolePunchReport {
            released_blocks: sort_ascending(lists.released.as_slice()),
            punched_logical_blocks: lists.punched,
            zeroed_edge_blocks: lists.edges,
            transaction,
        },
    )
}

proof fn lemma_put_write_applied(disk: Disk, list: Seq<HomeWrite>, w: HomeWrite)
    requires
        !recovery::targets(list, w.0 as int),
        w.0 < disk.len(),
        forall|k: int| 0 <= k < list.len() ==> (#[trigger] list[k]).0 < disk.len(),
    ensures
        recovery::applied(disk, put_write(list, w)) == recovery::applied(disk, list).update(
            w.0 as int,
            w.1,
        ),
        forall|k: int|
            0 <= k < put_write(list, w).len() ==> (#[trigger] put_write(list, w)[k]) == w
                || list.contains(put_write(list, w)[k]),
    decreases list.len(),
{
    let all = put_write(list, w);
    if list.len() == 0 || list.last().0 <= w.0 {
        assert(all.drop_last() =~= list);
        assert forall|k: int| 0 <= k < all.len() implies (#[trigger] all[k]) == w || list.contains(
            all[k],
        ) by {
            if k < list.len() {
                assert(list[k] == all[k]);
            }
        }
    } else {
        let front = list.drop_last();
        let last = list.last();
        let n = list.len() - 1;
        assert(list[n] == last);
        assert(last.0 != w.0);
        assert(!recovery::targets(front, w.0 as int)) by {
            if recovery::targets(front, w.0 as int) {
                let k = choose|k: int| 0 <= k < front.len() && (#[trigger] front[k]).0 == w.0;
                assert(list[k] == front[k]);
            }
        }
        assert forall|k: int| 0 <= k < front.len() implies (#[trigger] front[k]).0 < disk.len() by {
            assert(list[k] == front[k]);
        }
        lemma_put_write_applied(disk, front, w);
        assert(all.drop_last() =~= put_write(front, w));
        recovery::lemma_applied(disk, front);
        let mid = recovery::applied(disk, front);
        assert(mid.update(w.0 as int, w.1).update(last.0 as int, last.1) =~= mid.update(
            last.0 as int,
            last.1,
        ).update(w.0 as int, w.1));
        assert forall|k: int| 0 <= k < all.len() implies (#[trigger] all[k]) == w || list.contains(
            all[k],
        ) by {
            if k < all.len() - 1 {
                assert(all[k] == put_write(front, w)[k]);
                if all[k] != w {
                    let i = choose|i: int| 0 <= i < front.len() && front[i] == all[k];
                    assert(list[i] == all[k]);
                }
            } else {
                assert(list[n] == all[k]);
            }
        }
    }
}

/// The stored blocks of a range are distinct and on the disk.
spec fn separate(disk: Disk, blocks: Seq<u64>, from: int, to: int) -> bool {
    &&& forall|k: int|
        from <= k < to && #[trigger] blocks[k] != SPARSE_HOLE_BLOCK ==> blocks[k] < disk.len()
    &&& forall|k: int, l: int|
        from <= k < l < to && #[trigger] blocks[k] == #[trigger] blocks[l] ==> blocks[k]
            == SPARSE_HOLE_BLOCK
}

/// What the lists of a punch amount to.
proof fn lemma_punch_lists(disk: Disk, blocks: Seq<u64>, len: int, offset: int, end: int, from: int, to: int)
    requires
        0 <= from <= to <= blocks.len(),
        separate(disk, blocks, from, to),
    ensures
        ({
            let lists = punch_lists(disk, blocks, len, offset, end, from, to);
            let after = recovery::applied(disk, lists.writes);
            &&& after.len() == disk.len()
            &&& forall|i: int|
                0 <= i < lists.writes.len() ==> (#[trigger] lists.writes[i]).1.len() == BLOCK_SIZE
                    && exists|k: int|
                    from <= k < to && #[trigger] blocks[k] == lists.writes[i].0 && blocks[k]
                        != SPARSE_HOLE_BLOCK && !covers(k, offset, end, len)
            &&& forall|k: int|
                from <= k < to && #[trigger] blocks[k] != SPARSE_HOLE_BLOCK && !covers(
                    k,
                    offset,
                    end,
                    len,
                ) ==> after[blocks[k] as int] == zeroed(disk[blocks[k] as int], k, offset, end)
            &&& lists.released.len() == 0 ==> forall|k: int|
                from <= k < to && #[trigger] blocks[k] != SPARSE_HOLE_BLOCK ==> !covers(
                    k,
                    offset,
                    end,
                    len,
                )
            &&& forall|block: u64|
                block != SPARSE_HOLE_BLOCK ==> (#[trigger] create_data_tx::occurrences(
                    holed(blocks, len, offset, end, from, to),
                    block,
                )) + create_data_tx::occurrences(lists.released, block)
                    == create_data_tx::occurrences(blocks.subrange(from, to), block)
        }),
    decreases to - from,
{
    let lists = punch_lists(disk, blocks, len, offset, end, from, to);
    if from == to {
        assert(holed(blocks, len, offset, end, from, to) =~= Seq::<u64>::empty());
        assert(blocks.subrange(from, to) =~= Seq::<u64>::empty());
    } else {
        let k = to - 1;
        let front = punch_lists(disk, blocks, len, offset, end, from, k);
        lemma_punch_lists(disk, blocks, len, offset, end, from, k);
        let image = disk[blocks[k] as int];
        let next = zeroed(image, k, offset, end);
        let w = (blocks[k], next);
        let mid = recovery::applied(disk, front.writes);
        assert forall|block: u64| block != SPARSE_HOLE_BLOCK implies (
        #[trigger] create_data_tx::occurrences(
            holed(blocks, len, offset, end, from, to),
            block,
        )) + create_data_tx::occurrences(lists.released, block) == create_data_tx::occurrences(
            blocks.subrange(from, to),
            block,
        ) by {
            let h = holed(blocks, len, offset, end, from, to);
            assert(h.drop_last() =~= holed(blocks, len, offset, end, from, k));
            assert(blocks.subrange(from, to).drop_last() =~= blocks.subrange(from, k));
            assert(blocks.subrange(from, to).last() == blocks[k]);
            assert(h.last() == if covers(k, offset, end, len) {
                SPARSE_HOLE_BLOCK
            } else {
                blocks[k]
            });
            if lists.released.len() > front.released.len() {
                assert(lists.released.drop_last() =~= front.released);
            }
            assert(create_data_tx::occurrences(
                holed(blocks, len, offset, end, from, k),
                block,
            ) + create_data_tx::occurrences(front.released, block) == create_data_tx::occurrences(
                blocks.subrange(from, k),
                block,
            ));
        }
        assert(blocks[k] != SPARSE_HOLE_BLOCK ==> !recovery::targets(
            front.writes,
            blocks[k] as int,
        )) by {
            if blocks[k] != SPARSE_HOLE_BLOCK && recovery::targets(front.writes, blocks[k] as int) {
                let i = choose|i: int|
                    0 <= i < front.writes.len() && (#[trigger] front.writes[i]).0 == blocks[k];
                let l = choose|l: int|
                    from <= l < k && #[trigger] blocks[l] == front.writes[i].0 && blocks[l]
                        != SPARSE_HOLE_BLOCK && !covers(l, offset, end, len);
                assert(blocks[l] == blocks[k]);
            }
        }
        assert forall|i: int| 0 <= i < front.writes.len() implies (#[trigger] front.writes[i]).0
            < disk.len() by {
            let l = choose|l: int|
                from <= l < k && #[trigger] blocks[l] == front.writes[i].0 && blocks[l]
                    != SPARSE_HOLE_BLOCK && !covers(l, offset, end, len);
        }
        recovery::lemma_applied(disk, front.writes);
        if blocks[k] != SPARSE_HOLE_BLOCK && !covers(k, offset, end, len) && next != image {
            lemma_put_write_applied(disk, front.writes, w);
            let after = recovery::applied(disk, lists.writes);
            assert(after == mid.update(blocks[k] as int, next));
            assert forall|l: int|
                from <= l < to && #[trigger] blocks[l] != SPARSE_HOLE_BLOCK && !covers(
                    l,
                    offset,
                    end,
                    len,
                ) implies after[blocks[l] as int] == zeroed(
                disk[blocks[l] as int],
                l,
                offset,
                end,
            ) by {
                if l < k {
                    assert(blocks[l] != blocks[k]);
                }
            }
            assert forall|i: int| 0 <= i < lists.writes.len() implies (
            #[trigger] lists.writes[i]).1.len() == BLOCK_SIZE && exists|l: int|
                from <= l < to && #[trigger] blocks[l] == lists.writes[i].0 && blocks[l]
                    != SPARSE_HOLE_BLOCK && !covers(l, offset, end, len) by {
                if lists.writes[i] == w {
                    assert(blocks[k] == lists.writes[i].0);
                } else {
                    assert(front.writes.contains(lists.writes[i]));
                    let m = choose|m: int|
                        0 <= m < front.writes.len() && front.writes[m] == lists.writes[i];
                    assert(front.writes[m].1.len() == BLOCK_SIZE);
                    let l = choose|l: int|
                        from <= l < k && #[trigger] blocks[l] == front.writes[m].0 && blocks[l]
                            != SPARSE_HOLE_BLOCK && !covers(l, offset, end, len);
                    assert(blocks[l] == lists.writes[i].0);
                }
            }
        } else {
            assert(lists.writes == front.writes);
            assert forall|i: int| 0 <= i < lists.writes.len() implies (
            #[trigger] lists.writes[i]).1.len() == BLOCK_SIZE && exists|l: int|
                from <= l < to && #[trigger] blocks[l] == lists.writes[i].0 && blocks[l]
                    != SPARSE_HOLE_BLOCK && !covers(l, offset, end, len) by {
                let l = choose|l: int|
                    from <= l < k && #[trigger] blocks[l] == front.writes[i].0 && blocks[l]
                        != SPARSE_HOLE_BLOCK && !covers(l, offset, end, len);
                assert(blocks[l] == lists.writes[i].0);
            }
        }
        if lists.released.len() == 0 {
            assert(front.released.len() == 0);
        }
    }
}

/// The byte that a reader finds at position `p` after a punch.
pub open spec fn punched_byte(disk: Disk, inode: InodeView, offset: int, len: int, p: int) -> u8 {
    if offset <= p < offset + len {
        0
    } else {
        contents::byte_at(disk, inode, p)
    }
}

/// What the writes of a punch leave behind its mapping.
proof fn lemma_punched_byte(disk: Disk, inode: InodeView, offset: int, len: int, p: int)
    requires
        inode_codec::exact(inode),
        inode.kind == crate::inode::InodeKind::File,
        0 <= offset,
        0 < len,
        offset + len <= inode.byte_len,
        0 <= p < inode.byte_len,
        separate(disk, inode.blocks, 0, inode.blocks.len() as int),
    ensures
        ({
            let eof = inode.byte_len as int;
            let end = offset + len;
            let from = offset / (BLOCK_SIZE as int);
            let to = (end - 1) / (BLOCK_SIZE as int) + 1;
            let lists = punch_lists(disk, inode.blocks, eof, offset, end, from, to);
            let next = inode_codec::spliced(
                inode.blocks,
                from,
                to,
                holed(inode.blocks, eof, offset, end, from, to),
            );
            &&& 0 <= from < to <= inode.blocks.len()
            &&& next.len() == inode.blocks.len()
            &&& contents::byte_at(
                recovery::applied(disk, lists.writes),
                InodeView { blocks: next, ..inode },
                p,
            ) == punched_byte(disk, inode, offset, len, p)
        }),
{
    let eof = inode.byte_len as int;
    let end = offset + len;
    let from = offset / (BLOCK_SIZE as int);
    let to = (end - 1) / (BLOCK_SIZE as int) + 1;
    let blocks = inode.blocks;
    crate::inode_table::lemma_canonical_exact(inode);
    assert(to <= blocks.len());
    let lists = punch_lists(disk, blocks, eof, offset, end, from, to);
    let hole = holed(blocks, eof, offset, end, from, to);
    let next = inode_codec::spliced(blocks, from, to, hole);
    let after = recovery::applied(disk, lists.writes);
    assert(separate(disk, blocks, from, to));
    lemma_punch_lists(disk, blocks, eof, offset, end, from, to);
    assert forall|i: int| 0 <= i < lists.writes.len() implies (#[trigger] lists.writes[i]).0
        < disk.len() by {
        let l = choose|l: int|
            from <= l < to && #[trigger] blocks[l] == lists.writes[i].0 && blocks[l]
                != SPARSE_HOLE_BLOCK && !covers(l, offset, end, eof);
    }
    recovery::lemma_applied(disk, lists.writes);
    let q = p / (BLOCK_SIZE as int);
    let r = p % (BLOCK_SIZE as int);
    assert(q * BLOCK_SIZE + r == p);
    assert(0 <= q < blocks.len());
    if from <= q < to {
        assert(next[q] == hole[q - from]);
        if covers(q, offset, end, eof) {
            assert(p < visible_end(q, eof));
        } else if blocks[q] != SPARSE_HOLE_BLOCK {
            assert(after[blocks[q] as int] == zeroed(disk[blocks[q] as int], q, offset, end));
        }
    } else {
        assert(next[q] == blocks[q]);
        assert(!(offset <= p < end));
        if blocks[q] != SPARSE_HOLE_BLOCK && recovery::targets(lists.writes, blocks[q] as int) {
            let i = choose|i: int|
                0 <= i < lists.writes.len() && (#[trigger] lists.writes[i]).0 == blocks[q];
            let l = choose|l: int|
                from <= l < to && #[trigger] blocks[l] == lists.writes[i].0 && blocks[l]
                    != SPARSE_HOLE_BLOCK && !covers(l, offset, end, eof);
            assert(blocks[l] == blocks[q]);
        }
    }
}

/// All bytes of logical block `b` that a reader sees are punched.
pub open spec fn punched_block(inode: InodeView, offset: int, len: int, b: int) -> bool {
    forall|p: int|
        #![trigger in_block(b, p)]
        in_block(b, p) && p < inode.byte_len ==> offset <= p < offset + len
}

/// Position `p` lies in logical block `b`.
pub open spec fn in_block(b: int, p: int) -> bool {
    b * BLOCK_SIZE <= p < (b + 1) * BLOCK_SIZE
}

/// A report lists, in ascending order, the stored blocks that only held punched bytes, and which
/// logical blocks they were, and apart from them the stored blocks in which bytes were zeroed.
pub open spec fn reports(disk: Disk, inode: InodeView, offset: int, len: int, report: PunchView) -> bool {
    &&& forall|i: int, j: int|
        0 <= i < j < report.released.len() ==> #[trigger] report.released[i]
            <= #[trigger] report.released[j]
    &&& forall|x: u64| #[trigger]
        report.released.contains(x) <==> exists|b: int|
            0 <= b < inode.blocks.len() && #[trigger] inode.blocks[b] == x && x != SPARSE_HOLE_BLOCK
                && punched_block(inode, offset, len, b)
    &&& forall|k: usize| #[trigger]
        report.punched.contains(k) <==> k < inode.blocks.len() && inode.blocks[k as int]
            != SPARSE_HOLE_BLOCK && punched_block(inode, offset, len, k as int)
    &&& forall|k: usize| #[trigger]
        report.edges.contains(k) <==> k < inode.blocks.len() && inode.blocks[k as int]
            != SPARSE_HOLE_BLOCK && !punched_block(inode, offset, len, k as int) && exists|p: int|
            #[trigger] in_block(k as int, p) && offset <= p < offset + len && contents::byte_at(
                disk,
                inode,
                p,
            ) != 0
}

/// What covers the visible bytes of a block.
proof fn lemma_covers(inode: InodeView, offset: int, len: int, b: int)
    requires
        inode_codec::exact(inode),
        inode.kind == crate::inode::InodeKind::File,
        0 <= b < inode.blocks.len(),
        0 <= offset,
        0 < len,
        offset + len <= inode.byte_len,
    ensures
        punched_block(inode, offset, len, b) == covers(
            b,
            offset,
            offset + len,
            inode.byte_len as int,
        ),
        punched_block(inode, offset, len, b) ==> offset / (BLOCK_SIZE as int) <= b <= (offset + len
            - 1) / (BLOCK_SIZE as int),
{
    let eof = inode.byte_len as int;
    let first = b * BLOCK_SIZE;
    let last = visible_end(b, eof) - 1;
    assert(in_block(b, first));
    assert(first <= last);
    assert(in_block(b, last));
}

/// What a report lists of the blocks from `from` to `to`.
proof fn lemma_lists(disk: Disk, inode: InodeView, offset: int, len: int, from: int, to: int)
    requires
        contents::full_blocks(disk),
        inode_codec::exact(inode),
        inode.kind == crate::inode::InodeKind::File,
        0 <= from <= to <= inode.blocks.len() <= usize::MAX,
        0 <= offset,
        0 < len,
        offset + len <= inode.byte_len,
        separate(disk, inode.blocks, 0, inode.blocks.len() as int),
    ensures
        ({
            let lists = punch_lists(
                disk,
                inode.blocks,
                inode.byte_len as int,
                offset,
                offset + len,
                from,
                to,
            );
            &&& forall|x: u64| #[trigger]
                lists.released.contains(x) <==> exists|b: int|
                    from <= b < to && #[trigger] inode.blocks[b] == x && x != SPARSE_HOLE_BLOCK
                        && punched_block(inode, offset, len, b)
            &&& forall|k: usize| #[trigger]
                lists.punched.contains(k) <==> from <= k < to && inode.blocks[k as int]
                    != SPARSE_HOLE_BLOCK && punched_block(inode, offset, len, k as int)
            &&& forall|k: usize| #[trigger]
                lists.edges.contains(k) <==> from <= k < to && inode.blocks[k as int]
                    != SPARSE_HOLE_BLOCK && !punched_block(inode, offset, len, k as int)
                    && exists|p: int| #[trigger]
                    in_block(k as int, p) && offset <= p < offset + len && contents::byte_at(
                        disk,
                        inode,
                        p,
                    ) != 0
        }),
    decreases to - from,
{
    let eof = inode.byte_len as int;
    let end = offset + len;
    let lists = punch_lists(disk, inode.blocks, eof, offset, end, from, to);
    if from < to {
        let k = to - 1;
        let front = punch_lists(disk, inode.blocks, eof, offset, end, from, k);
        lemma_lists(disk, inode, offset, len, from, k);
        lemma_covers(inode, offset, len, k);
        let image = disk[inode.blocks[k] as int];
        let next = zeroed(image, k, offset, end);
        broadcast use vstd::seq_lib::group_seq_properties;

        if inode.blocks[k] != SPARSE_HOLE_BLOCK {
            assert(image.len() == BLOCK_SIZE);
            if next == image {
                assert forall|p: int| #[trigger]
                    in_block(k, p) && offset <= p < end implies contents::byte_at(disk, inode, p)
                    == 0 by {
                    let r = p - k * BLOCK_SIZE;
                    assert(p / (BLOCK_SIZE as int) == k && p % (BLOCK_SIZE as int) == r);
                    assert(next[r] == 0);
                }
            } else {
                assert(next.len() == image.len());
                let r = choose|r: int| 0 <= r < BLOCK_SIZE && next[r] != image[r];
                assert(exists|r: int| 0 <= r < BLOCK_SIZE && next[r] != image[r]) by {
                    if forall|r: int| 0 <= r < BLOCK_SIZE ==> next[r] == image[r] {
                        assert(next =~= image);
                    }
                }
                let p = k * BLOCK_SIZE + r;
                assert(in_block(k, p));
                assert(p / (BLOCK_SIZE as int) == k && p % (BLOCK_SIZE as int) == r);
                assert(contents::byte_at(disk, inode, p) != 0);
            }
        }
        assert forall|x: u64| #[trigger]
            lists.released.contains(x) <==> exists|b: int|
                from <= b < to && #[trigger] inode.blocks[b] == x && x != SPARSE_HOLE_BLOCK
                    && punched_block(inode, offset, len, b) by {
            assert(front.released.contains(x) ==> lists.released.contains(x));
            if exists|b: int|
                from <= b < to && #[trigger] inode.blocks[b] == x && x != SPARSE_HOLE_BLOCK
                    && punched_block(inode, offset, len, b) {
                let b = choose|b: int|
                    from <= b < to && #[trigger] inode.blocks[b] == x && x != SPARSE_HOLE_BLOCK
                        && punched_block(inode, offset, len, b);
                if b < k {
                    assert(front.released.contains(x));
                } else {
                    assert(lists.released[lists.released.len() - 1] == x);
                }
            }
        }
    }
}

/// After a punch the punched bytes are zeros, all other bytes and the length of the file are as
/// before, and nothing else changes. Stored blocks that only held punched bytes are released and
/// become holes, and no other block is.
pub proof fn law_punch(disk: Disk, sb: Superblock, id: u64, index: int, offset: int, len: int)
    requires
        soundness::sound_on(disk, sb),
        file_blocks::file_index(soundness::tables_of(disk, sb).inodes, id) == Ok::<int, ErrorKind>(
            index,
        ),
        0 <= offset,
        0 <= len,
        punch_step(disk, sb, id, offset, len).result is Ok,
    ensures
        ({
            let end = punch_step(disk, sb, id, offset, len).disk;
            let before = soundness::tables_of(disk, sb).inodes[index];
            let after = soundness::tables_of(end, sb).inodes[index];
            &&& contents::only_changed(disk, end, sb, index)
            &&& after.byte_len == before.byte_len
            &&& forall|p: int|
                0 <= p < after.byte_len ==> #[trigger] contents::byte_at(end, after, p)
                    == punched_byte(disk, before, offset, len, p)
            &&& after.blocks.len() == before.blocks.len()
            &&& forall|b: int|
                0 <= b < after.blocks.len() ==> #[trigger] after.blocks[b] == if punched_block(
                    before,
                    offset,
                    len,
                    b,
                ) {
                    SPARSE_HOLE_BLOCK
                } else {
                    before.blocks[b]
                }
            &&& forall|x: u64| #[trigger]
                soundness::tables_of(end, sb).allocator.owns(x) <==> soundness::tables_of(
                    disk,
                    sb,
                ).allocator.owns(x) && !punch_step(
                    disk,
                    sb,
                    id,
                    offset,
                    len,
                ).result->Ok_0.released.contains(x)
        }),
{
    let t = soundness::tables_of(disk, sb);
    soundness::lemma_sound_parts(disk, sb);
    file_blocks::lemma_index_from(t.inodes, id, 0);
    let inode = t.inodes[index];
    assert(inode_codec::exact(inode));
    crate::inode_table::lemma_canonical_exact(inode);
    let eof = inode.byte_len as int;
    let end = offset + len;
    let from = offset / (BLOCK_SIZE as int);
    let to = (end - 1) / (BLOCK_SIZE as int) + 1;
    let blocks = inode.blocks;
    let lists = punch_lists(disk, blocks, eof, offset, end, from, to);
    let hole = holed(blocks, eof, offset, end, from, to);
    assert(separate(disk, blocks, 0, blocks.len() as int)) by {
        assert forall|k: int|
            0 <= k < blocks.len() && #[trigger] blocks[k] != SPARSE_HOLE_BLOCK implies blocks[k]
            < disk.len() by {
            contents::lemma_mapped_owned(t.allocator, t.inodes, index, k);
        }
    }
    lemma_punched_byte(disk, inode, offset, len, offset);
    assert(separate(disk, blocks, from, to));
    lemma_punch_lists(disk, blocks, eof, offset, end, from, to);
    let done = punch_step(disk, sb, id, offset, len).disk;
    let next = inode_codec::replaced_range(inode, from, to, hole)->Some_0;
    assert(next.blocks == inode_codec::spliced(blocks, from, to, hole));
    assert(next.byte_len == inode.byte_len);
    assert forall|b: int| 0 <= b < blocks.len() implies #[trigger] next.blocks[b]
        == if punched_block(inode, offset, len, b) {
        SPARSE_HOLE_BLOCK
    } else {
        blocks[b]
    } by {
        lemma_covers(inode, offset, len, b);
    }
    allocation::law_releasing(t.allocator, lists.released);
    law_ascending(lists.released);
    assert forall|x: u64| #[trigger]
        ascending(lists.released).contains(x) <==> lists.released.contains(x) by {
        ascending(lists.released).to_multiset_ensures();
        lists.released.to_multiset_ensures();
        assert(ascending(lists.released).to_multiset().count(x)
            == lists.released.to_multiset().count(x));
    }
    assert(ascending(Seq::<u64>::empty()) =~= Seq::<u64>::empty());
    match punch(disk, t.allocator, inode, offset, len)->Ok_0 {
        None => {
            assert(hole =~= blocks.subrange(from, to)) by {
                assert forall|i: int| 0 <= i < hole.len() implies hole[i] == blocks.subrange(
                    from,
                    to,
                )[i] by {
                    assert(blocks[from + i] != SPARSE_HOLE_BLOCK ==> !covers(
                        from + i,
                        offset,
                        end,
                        eof,
                    ));
                }
            }
            assert(next.blocks =~= blocks);
            assert(recovery::applied(disk, lists.writes) == disk);
            assert forall|p: int| 0 <= p < inode.byte_len implies #[trigger] contents::byte_at(
                done,
                inode,
                p,
            ) == punched_byte(disk, inode, offset, len, p) by {
                lemma_punched_byte(disk, inode, offset, len, p);
            }
        },
        Some(plan) => {
            let u = Update {
                allocator: Some(plan.allocator),
                inodes: Some(t.inodes.update(index, next)),
                entries: None,
                data: lists.writes,
            };
            assert forall|block: u64| block != SPARSE_HOLE_BLOCK implies (
            #[trigger] create_data_tx::reference_count(t.inodes.update(index, next), block))
                + create_data_tx::occurrences(lists.released, block)
                == create_data_tx::reference_count(t.inodes, block) by {
                let front = blocks.subrange(0, from);
                let back = blocks.subrange(to, blocks.len() as int);
                let middle = blocks.subrange(from, to);
                ownership::lemma_count_update(t.inodes, index, next, block);
                assert(blocks =~= front + middle + back);
                ownership::lemma_occurrences_join(front + middle, back, block);
                ownership::lemma_occurrences_join(front, middle, block);
                ownership::lemma_occurrences_join(front + hole, back, block);
                ownership::lemma_occurrences_join(front, hole, block);
                assert(create_data_tx::occurrences(hole, block) + create_data_tx::occurrences(
                    lists.released,
                    block,
                ) == create_data_tx::occurrences(middle, block));
            }
            ownership::law_release_keeps_ownership(
                t.allocator,
                t.inodes,
                t.inodes.update(index, next),
                lists.released,
            );
            assert forall|i: int| 0 <= i < u.data.len() implies sb.data_start() <= (
            #[trigger] u.data[i]).0 < sb.total_blocks && u.data[i].1.len() == BLOCK_SIZE
                && u.data[i].0 != SPARSE_HOLE_BLOCK && blocks.contains(u.data[i].0) by {
                let l = choose|l: int|
                    from <= l < to && #[trigger] blocks[l] == lists.writes[i].0 && blocks[l]
                        != SPARSE_HOLE_BLOCK && !covers(l, offset, end, eof);
                contents::lemma_mapped_owned(t.allocator, t.inodes, index, l);
            }
            assert forall|k: int, j: int, m: int|
                #![trigger u.data[k], t.inodes[j].blocks[m]]
                0 <= k < u.data.len() && 0 <= j < t.inodes.len() && j != index && 0 <= m
                    < t.inodes[j].blocks.len() implies u.data[k].0 != t.inodes[j].blocks[m] by {
                contents::lemma_stays_clear(t.allocator, t.inodes, index, u.data[k].0, j, m);
            }
            let replayed = recovery::applied(disk, u.data);
            let images = contents::images_of(replayed, next);
            contents::lemma_file_update(disk, sb, index, next, u, false, images);
            assert forall|p: int| 0 <= p < inode.byte_len implies #[trigger] contents::byte_at(
                done,
                next,
                p,
            ) == punched_byte(disk, inode, offset, len, p) by {
                let q = p / (BLOCK_SIZE as int);
                lemma_punched_byte(disk, inode, offset, len, p);
                assert(0 <= q < next.blocks.len());
                assert(contents::images_of(done, next)[q] == images[q]);
            }
        },
    }
}

/// The report of a punch lists what it did.
pub proof fn law_punch_report(disk: Disk, sb: Superblock, id: u64, index: int, offset: int, len: int)
    requires
        soundness::sound_on(disk, sb),
        contents::full_blocks(disk),
        file_blocks::file_index(soundness::tables_of(disk, sb).inodes, id) == Ok::<int, ErrorKind>(
            index,
        ),
        0 <= offset,
        0 <= len,
        punch_step(disk, sb, id, offset, len).result is Ok,
    ensures
        reports(
            disk,
            soundness::tables_of(disk, sb).inodes[index],
            offset,
            len,
            punch_step(disk, sb, id, offset, len).result->Ok_0,
        ),
{
    let t = soundness::tables_of(disk, sb);
    soundness::lemma_sound_parts(disk, sb);
    file_blocks::lemma_index_from(t.inodes, id, 0);
    let inode = t.inodes[index];
    assert(inode_codec::exact(inode));
    crate::inode_table::lemma_canonical_exact(inode);
    crate::inode_table::lemma_inodes_exact(disk, sb);
    let eof = inode.byte_len as int;
    let end = offset + len;
    let from = offset / (BLOCK_SIZE as int);
    let to = (end - 1) / (BLOCK_SIZE as int) + 1;
    let blocks = inode.blocks;
    let lists = punch_lists(disk, blocks, eof, offset, end, from, to);
    let report = punch_step(disk, sb, id, offset, len).result->Ok_0;
    assert(separate(disk, blocks, 0, blocks.len() as int)) by {
        assert forall|k: int|
            0 <= k < blocks.len() && #[trigger] blocks[k] != SPARSE_HOLE_BLOCK implies blocks[k]
            < disk.len() by {
            contents::lemma_mapped_owned(t.allocator, t.inodes, index, k);
        }
    }
    lemma_lists(disk, inode, offset, len, from, to);
    law_ascending(lists.released);
    assert forall|x: u64| #[trigger]
        ascending(lists.released).contains(x) <==> lists.released.contains(x) by {
        ascending(lists.released).to_multiset_ensures();
        lists.released.to_multiset_ensures();
        assert(ascending(lists.released).to_multiset().count(x)
            == lists.released.to_multiset().count(x));
    }
    assert forall|b: int| 0 <= b < blocks.len() implies (#[trigger] punched_block(
        inode,
        offset,
        len,
        b,
    ) ==> from <= b < to) by {
        lemma_covers(inode, offset, len, b);
    }
    assert forall|b: int, p: int|
        0 <= b < blocks.len() && #[trigger] in_block(b, p) && offset <= p < end implies from <= b
        < to by {
    }
    if lists.released.len() == 0 && lists.writes.len() == 0 {
        lemma_silent(disk, blocks, eof, offset, end, from, to);
        assert(report.released =~= lists.released);
        assert(report.punched =~= lists.punched);
        assert(report.edges =~= lists.edges);
    } else {
        assert(report.released == ascending(lists.released));
    }
    assert forall|x: u64| #[trigger]
        report.released.contains(x) <==> exists|b: int|
            0 <= b < blocks.len() && #[trigger] blocks[b] == x && x != SPARSE_HOLE_BLOCK
                && punched_block(inode, offset, len, b) by {
        assert(report.released.contains(x) <==> lists.released.contains(x));
        if exists|b: int|
            0 <= b < blocks.len() && #[trigger] blocks[b] == x && x != SPARSE_HOLE_BLOCK
                && punched_block(inode, offset, len, b) {
            let b = choose|b: int|
                0 <= b < blocks.len() && #[trigger] blocks[b] == x && x != SPARSE_HOLE_BLOCK
                    && punched_block(inode, offset, len, b);
            assert(from <= b < to);
            assert(blocks[b] == x);
        }
    }
}

/// A write put into its place in a list is one more.
proof fn lemma_put_write_len(list: Seq<HomeWrite>, w: HomeWrite)
    ensures
        put_write(list, w).len() == list.len() + 1,
    decreases list.len(),
{
    if list.len() > 0 && !(list.last().0 <= w.0) {
        lemma_put_write_len(list.drop_last(), w);
    }
}

/// As many blocks are listed as are released, and as are written.
proof fn lemma_silent(disk: Disk, blocks: Seq<u64>, len: int, offset: int, end: int, from: int, to: int)
    ensures
        ({
            let lists = punch_lists(disk, blocks, len, offset, end, from, to);
            &&& lists.punched.len() == lists.released.len()
            &&& lists.edges.len() == lists.writes.len()
        }),
    decreases to - from,
{
    if from < to {
        let k = to - 1;
        let front = punch_lists(disk, blocks, len, offset, end, from, k);
        lemma_silent(disk, blocks, len, offset, end, from, k);
        let image = disk[blocks[k] as int];
        lemma_put_write_len(front.writes, (blocks[k], zeroed(image, k, offset, end)));
    }
}

} // verus!
