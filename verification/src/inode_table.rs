//! The inode table on the device.

use vstd::prelude::*;
use crate::block;
use crate::block::{BlockDevice, Disk, BLOCK_SIZE};
use crate::bytes::read_u16;
use crate::error::{Error, ErrorKind};
use crate::format::Superblock;
use crate::inode_codec;
use crate::inode_codec::{decode_inode, encode_inode, InodeView, PersistedInode, INODE_RECORD_HEADER_LEN};
use crate::records;
use crate::records::split_records;
use crate::region;
use crate::region::{is_marked, open_payload, read_region, seal, HEADER_SIZE, STATE_OFFSET};

verus! {

pub const INODE_TABLE_MAGIC: [u8; 4] = [0x49, 0x4E, 0x54, 0x31];

pub const INODE_TABLE_VERSION: u16 = 1;

/// Bytes in front of the records.
pub const INODE_TABLE_HEADER_LEN: usize = 32;

/// The values of a list of inodes.
pub open spec fn inode_views(inodes: Seq<PersistedInode>) -> Seq<InodeView> {
    Seq::new(inodes.len(), |i: int| inodes[i]@)
}

/// The records of a list of inodes; none where one of them has no record.
pub open spec fn inode_records(inodes: Seq<InodeView>) -> Option<Seq<Seq<u8>>>
    decreases inodes.len(),
{
    if inodes.len() == 0 {
        Some(Seq::empty())
    } else {
        match (inode_records(inodes.drop_last()), inode_codec::encoded(inodes.last())) {
            (Some(front), Some(last)) => Some(front.push(last)),
            _ => None,
        }
    }
}

/// Every inode with its exact byte length written out.
pub open spec fn canonical_inodes(inodes: Seq<InodeView>) -> Seq<InodeView> {
    Seq::new(inodes.len(), |i: int| inode_codec::canonical(inodes[i]))
}

/// The region that holds a list of inodes; none where an inode has no record or the records do
/// not fit.
pub open spec fn inode_region(sb: Superblock, inodes: Seq<InodeView>) -> Option<Seq<u8>> {
    let capacity = sb.inode_blocks * BLOCK_SIZE;
    match inode_records(inodes) {
        Some(list) => if HEADER_SIZE + records::joined(list).len() <= capacity {
            Some(
                region::sealed(
                    capacity as nat,
                    INODE_TABLE_MAGIC@,
                    INODE_TABLE_VERSION,
                    0,
                    records::joined(list),
                ),
            )
        } else {
            None
        },
        None => None,
    }
}

/// The inodes of a list of records, or how the first bad one is refused.
pub open spec fn inodes_of_records(list: Seq<Seq<u8>>) -> Result<Seq<InodeView>, ErrorKind>
    decreases list.len(),
{
    if list.len() == 0 {
        Ok(Seq::empty())
    } else {
        match inodes_of_records(list.drop_last()) {
            Err(kind) => Err(kind),
            Ok(front) => match inode_codec::decoded(list.last()) {
                Ok(last) => Ok(front.push(last)),
                Err(kind) => Err(kind),
            },
        }
    }
}

/// The inodes that a region holds, or how it is refused.
pub open spec fn inodes_of(data: Seq<u8>) -> Result<Seq<InodeView>, ErrorKind> {
    if region::magic_of(data) != INODE_TABLE_MAGIC@ || region::version_of(data)
        != INODE_TABLE_VERSION || region::state_of(data) != 0 {
        Err(ErrorKind::InvalidData)
    } else {
        match region::payload_of(data) {
            Some(payload) => match records::split(payload, INODE_RECORD_HEADER_LEN as int) {
                Some(list) => inodes_of_records(list),
                None => Err(ErrorKind::InvalidData),
            },
            None => Err(ErrorKind::InvalidData),
        }
    }
}

/// The inodes of a device, or how they are refused.
#[verifier::opaque]
pub open spec fn inodes_on(disk: Disk, sb: Superblock) -> Result<Seq<InodeView>, ErrorKind> {
    if !sb.fits(disk) {
        Err(ErrorKind::InvalidInput)
    } else {
        inodes_of(region::region_of(disk, sb.inode_start as int, sb.inode_blocks as nat))
    }
}

/// An inode that is exact is its own canonical form.
pub proof fn lemma_canonical_exact(inode: InodeView)
    requires
        inode_codec::exact(inode),
    ensures
        inode_codec::canonical(inode) == inode,
        inode_codec::checked_len(inode, true) == Some(inode.byte_len),
{
}

proof fn lemma_records_round_trip(inodes: Seq<InodeView>)
    requires
        inode_records(inodes) is Some,
    ensures
        inode_records(inodes)->Some_0.len() == inodes.len(),
        forall|i: int|
            0 <= i < inodes.len() ==> records::delimited(
                #[trigger] inode_records(inodes)->Some_0[i],
                INODE_RECORD_HEADER_LEN as int,
            ),
        inodes_of_records(inode_records(inodes)->Some_0) == Ok::<Seq<InodeView>, ErrorKind>(
            canonical_inodes(inodes),
        ),
    decreases inodes.len(),
{
    let list = inode_records(inodes)->Some_0;
    if inodes.len() > 0 {
        let front = inodes.drop_last();
        lemma_records_round_trip(front);
        inode_codec::law_inode_round_trip(inodes.last());
        assert(list.drop_last() =~= inode_records(front)->Some_0);
        assert(canonical_inodes(front).push(inode_codec::canonical(inodes.last()))
            =~= canonical_inodes(inodes));
    } else {
        assert(canonical_inodes(inodes) =~= Seq::<InodeView>::empty());
    }
}

/// Inodes that were laid out read back, with their exact byte lengths written out.
pub proof fn law_inode_table_round_trip(sb: Superblock, inodes: Seq<InodeView>)
    requires
        sb.valid(),
        inode_region(sb, inodes) is Some,
    ensures
        inodes_of(inode_region(sb, inodes)->Some_0) == Ok::<Seq<InodeView>, ErrorKind>(
            canonical_inodes(inodes),
        ),
        inode_region(sb, inodes)->Some_0.len() == sb.inode_blocks * BLOCK_SIZE,
{
    let list = inode_records(inodes)->Some_0;
    lemma_records_round_trip(inodes);
    records::lemma_split_joined(list, INODE_RECORD_HEADER_LEN as int);
    region::lemma_sealed(
        (sb.inode_blocks * BLOCK_SIZE) as nat,
        INODE_TABLE_MAGIC@,
        INODE_TABLE_VERSION,
        0,
        records::joined(list),
    );
}

proof fn lemma_decoded_exact(list: Seq<Seq<u8>>)
    ensures
        inodes_of_records(list) matches Ok(inodes) ==> forall|i: int|
            0 <= i < inodes.len() ==> inode_codec::exact(#[trigger] inodes[i])
                && inodes[i].blocks.len() <= u32::MAX,
    decreases list.len(),
{
    if list.len() > 0 {
        lemma_decoded_exact(list.drop_last());
    }
}

/// Every inode of a device is exact, and a record counts its blocks.
pub proof fn lemma_inodes_exact(disk: Disk, sb: Superblock)
    ensures
        inodes_on(disk, sb) matches Ok(inodes) ==> forall|i: int|
            0 <= i < inodes.len() ==> inode_codec::exact(#[trigger] inodes[i])
                && inodes[i].blocks.len() <= u32::MAX,
{
    reveal(inodes_on);
    let data = region::region_of(disk, sb.inode_start as int, sb.inode_blocks as nat);
    if let Some(payload) = region::payload_of(data) {
        if let Some(list) = records::split(payload, INODE_RECORD_HEADER_LEN as int) {
            lemma_decoded_exact(list);
        }
    }
}

proof fn lemma_prefix_error(list: Seq<Seq<u8>>, k: int)
    requires
        0 <= k <= list.len(),
        inodes_of_records(list.subrange(0, k)) is Err,
    ensures
        inodes_of_records(list) == inodes_of_records(list.subrange(0, k)),
    decreases list.len(),
{
    if k == list.len() {
        assert(list.subrange(0, k) =~= list);
    } else {
        assert(list.drop_last().subrange(0, k) =~= list.subrange(0, k));
        lemma_prefix_error(list.drop_last(), k);
    }
}

proof fn lemma_prefix_unencodable(inodes: Seq<InodeView>, k: int)
    requires
        0 <= k <= inodes.len(),
        inode_records(inodes.subrange(0, k)) is None,
    ensures
        inode_records(inodes) is None,
    decreases inodes.len(),
{
    if k == inodes.len() {
        assert(inodes.subrange(0, k) =~= inodes);
    } else {
        assert(inodes.drop_last().subrange(0, k) =~= inodes.subrange(0, k));
        lemma_prefix_unencodable(inodes.drop_last(), k);
    }
}

fn corrupt(message: &'static str) -> (e: Error)
    ensures
        e.kind == ErrorKind::InvalidData,
        e.message == message,
{
    Error::new(ErrorKind::InvalidData, message)
}

/// Loads the inodes of a device.
pub fn load_inode_table<D: BlockDevice>(device: &mut D, superblock: &Superblock) -> (r: Result<Vec<PersistedInode>, Error>)
    ensures
        block::untouched(old(device), final(device)),
        match r {
            Ok(inodes) => {
                &&& inodes_on(old(device).blocks(), *superblock) == Ok::<Seq<InodeView>, ErrorKind>(
                    inode_views(inodes@),
                )
                &&& superblock.fits(old(device).blocks())
            },
            Err(e) => !old(device).healthy() || inodes_on(old(device).blocks(), *superblock)
                == Err::<Seq<InodeView>, ErrorKind>(e.kind),
        },
{
    proof {
        reveal(inodes_on);
    }
    if !superblock.describes(device.block_count()) {
        return Err(
            Error::new(ErrorKind::InvalidInput, "superblock does not describe the device"),
        );
    }
    let data = read_region(device, superblock.inode_start, superblock.inode_blocks)?;
    let region = data.as_slice();
    if !is_marked(region, &INODE_TABLE_MAGIC, INODE_TABLE_VERSION) || read_u16(region, STATE_OFFSET)
        != 0 {
        return Err(corrupt("inode table header is invalid"));
    }
    let payload = match open_payload(region) {
        Some(payload) => payload,
        None => return Err(corrupt("inode table is corrupt")),
    };
    let list = match split_records(payload.as_slice(), INODE_RECORD_HEADER_LEN) {
        Some(list) => list,
        None => return Err(corrupt("inode table record is torn")),
    };
    let ghost all = records::contents(list@);
    let mut inodes: Vec<PersistedInode> = Vec::new();
    assert(inode_views(inodes@) =~= Seq::<InodeView>::empty());
    let mut i: usize = 0;
    while i < list.len()
        invariant
            i <= list@.len(),
            all == records::contents(list@),
            inodes_of_records(all.subrange(0, i as int)) == Ok::<Seq<InodeView>, ErrorKind>(
                inode_views(inodes@),
            ),
            inodes_on(old(device).blocks(), *superblock) == inodes_of_records(all),
            block::untouched(old(device), device),
        decreases list@.len() - i,
    {
        proof {
            let next = all.subrange(0, i + 1);
            assert(next.drop_last() =~= all.subrange(0, i as int));
            assert(next.last() == list@[i as int]@);
        }
        match decode_inode(list[i].as_slice()) {
            Ok(inode) => {
                let ghost before = inode_views(inodes@);
                inodes.push(inode);
                assert(inode_views(inodes@) =~= before.push(inode@));
            },
            Err(e) => {
                proof {
                    lemma_prefix_error(all, i + 1);
                }
                return Err(e);
            },
        }
        i += 1;
    }
    assert(all.subrange(0, all.len() as int) =~= all);
    Ok(inodes)
}

/// Lays inodes out as the bytes of the table's region.
pub fn render_inode_table(superblock: &Superblock, inodes: &[PersistedInode]) -> (r: Result<Vec<u8>, Error>)
    requires
        superblock.valid(),
    ensures
        match r {
            Ok(v) => inode_region(*superblock, inode_views(inodes@)) == Some(v@),
            Err(e) => inode_region(*superblock, inode_views(inodes@)) is None && e.kind
                == ErrorKind::InvalidInput,
        },
{
    let ghost views = inode_views(inodes@);
    let mut payload: Vec<u8> = Vec::new();
    let mut i: usize = 0;
    assert(views.subrange(0, 0) =~= Seq::<InodeView>::empty());
    assert(payload@ =~= records::joined(Seq::empty()));
    while i < inodes.len()
        invariant
            i <= inodes@.len(),
            views == inode_views(inodes@),
            inode_records(views.subrange(0, i as int)) is Some,
            payload@ == records::joined(inode_records(views.subrange(0, i as int))->Some_0),
        decreases inodes@.len() - i,
    {
        let ghost next = views.subrange(0, i + 1);
        proof {
            assert(next.drop_last() =~= views.subrange(0, i as int));
            assert(next.last() == inodes@[i as int]@);
        }
        match encode_inode(&inodes[i]) {
            Ok(record) => {
                let mut record = record;
                proof {
                    let list = inode_records(next)->Some_0;
                    assert(list.drop_last() =~= inode_records(next.drop_last())->Some_0);
                }
                payload.append(&mut record);
            },
            Err(e) => {
                proof {
                    lemma_prefix_unencodable(views, i + 1);
                }
                return Err(e);
            },
        }
        i += 1;
    }
    assert(views.subrange(0, views.len() as int) =~= views);
    let capacity: usize = superblock.inode_blocks as usize * BLOCK_SIZE;
    match seal(capacity, &INODE_TABLE_MAGIC, INODE_TABLE_VERSION, 0, payload.as_slice()) {
        Some(v) => Ok(v),
        None => Err(Error::new(ErrorKind::InvalidInput, "inode table exceeds its region")),
    }
}

} // verus!
