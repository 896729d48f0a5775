//! Contiguous runs of blocks that hold one checksummed payload each.

use vstd::prelude::*;
use vstd::slice::*;
use crate::block;
use crate::block::{Block, BlockDevice, Disk, BLOCK_SIZE};
use crate::bytes;
use crate::bytes::{crc32, holds_at, is_zero_run, put, put_u16, put_u32, put_u64, read_u16, read_u32, read_u64, zero_vec};
use crate::error::Error;

verus! {

/// Bytes of the header in front of a payload.
pub const HEADER_SIZE: usize = 32;

const VERSION_OFFSET: usize = 4;

pub const STATE_OFFSET: usize = 6;

const PAYLOAD_LEN_OFFSET: usize = 8;

pub const CHECKSUM_OFFSET: usize = 16;

pub const RESERVED_OFFSET: usize = 20;

/// A region with its header and payload in place and a checksum field of zero.
pub open spec fn unsummed(capacity: nat, magic: Seq<u8>, version: u16, state: u16, payload: Seq<u8>) -> Seq<u8> {
    bytes::patch(
        bytes::patch(
            bytes::patch(
                bytes::patch(
                    bytes::patch(bytes::zeros(capacity), 0, magic),
                    4,
                    bytes::le16(version),
                ),
                6,
                bytes::le16(state),
            ),
            8,
            bytes::le64(payload.len() as u64),
        ),
        32,
        payload,
    )
}

/// A region of `capacity` bytes that holds `payload` under a checksummed header.
pub open spec fn sealed(capacity: nat, magic: Seq<u8>, version: u16, state: u16, payload: Seq<u8>) -> Seq<u8> {
    let plain = unsummed(capacity, magic, version, state, payload);
    bytes::patch(
        plain,
        16,
        bytes::le32(bytes::crc32_of(plain.subrange(0, 32 + payload.len() as int))),
    )
}

/// The payload of a region: none where the header, the padding or the checksum is wrong.
pub open spec fn payload_of(region: Seq<u8>) -> Option<Seq<u8>> {
    let used = 32 + bytes::at64(region, 8);
    if bytes::zero_run(region, 20, 32) && used <= region.len() && bytes::zero_run(
        region,
        used,
        region.len() as int,
    ) && bytes::crc32_of(bytes::patch(region.subrange(0, used), 16, bytes::zeros(4)))
        == bytes::at32(region, 16) {
        Some(region.subrange(32, used))
    } else {
        None
    }
}

/// The magic bytes of a region.
pub open spec fn magic_of(region: Seq<u8>) -> Seq<u8> {
    region.subrange(0, 4)
}

/// The format version of a region.
pub open spec fn version_of(region: Seq<u8>) -> u16 {
    bytes::at16(region, 4)
}

/// The state field of a region.
pub open spec fn state_of(region: Seq<u8>) -> u16 {
    bytes::at16(region, 6)
}

/// What was sealed is what comes out: magic, version, state and payload.
pub proof fn lemma_sealed(capacity: nat, magic: Seq<u8>, version: u16, state: u16, payload: Seq<u8>)
    requires
        magic.len() == 4,
        32 + payload.len() <= capacity,
        payload.len() <= u64::MAX,
    ensures
        sealed(capacity, magic, version, state, payload).len() == capacity,
        magic_of(sealed(capacity, magic, version, state, payload)) == magic,
        version_of(sealed(capacity, magic, version, state, payload)) == version,
        state_of(sealed(capacity, magic, version, state, payload)) == state,
        payload_of(sealed(capacity, magic, version, state, payload)) == Some(payload),
{
    broadcast use bytes::group_bytes;

    let plain = unsummed(capacity, magic, version, state, payload);
    let region = sealed(capacity, magic, version, state, payload);
    let used = 32 + payload.len();
    assert(bytes::at64(region, 8) == payload.len());
    assert(bytes::zero_run(region, 20, 32));
    assert(bytes::zero_run(region, used as int, capacity as int));
    assert(bytes::patch(region.subrange(0, used as int), 16, bytes::zeros(4))
        =~= plain.subrange(0, used as int));
    assert(region.subrange(32, used as int) =~= payload);
}

/// A region that gives a payload out is the one in which that payload is sealed.
pub proof fn lemma_resealed(region: Seq<u8>)
    requires
        region.len() >= HEADER_SIZE,
    ensures
        payload_of(region) matches Some(payload) ==> HEADER_SIZE + payload.len() <= region.len()
            && sealed(
            region.len(),
            magic_of(region),
            version_of(region),
            state_of(region),
            payload,
        ) == region,
{
    broadcast use bytes::group_bytes;

    if let Some(payload) = payload_of(region) {
        let plain = unsummed(
            region.len(),
            magic_of(region),
            version_of(region),
            state_of(region),
            payload,
        );
        let used = 32 + payload.len();
        assert(payload.len() == bytes::at64(region, 8));
        bytes::lemma_field_bytes(region, 4);
        bytes::lemma_field_bytes(region, 6);
        bytes::lemma_field_bytes(region, 8);
        bytes::lemma_field_bytes(region, 16);
        assert forall|i: int| 0 <= i < region.len() && !(16 <= i < 20) implies plain[i]
            == region[i] by {
            if i < 4 {
                assert(region.subrange(0, 4)[i] == region[i]);
            } else if i < 6 {
                assert(region.subrange(4, 6)[i - 4] == region[i]);
            } else if i < 8 {
                assert(region.subrange(6, 8)[i - 6] == region[i]);
            } else if i < 16 {
                assert(region.subrange(8, 16)[i - 8] == region[i]);
            } else if 32 <= i < used {
                assert(payload[i - 32] == region[i]);
            }
        }
        assert(plain.subrange(0, used as int) =~= bytes::patch(
            region.subrange(0, used as int),
            16,
            bytes::zeros(4),
        ));
        let e = sealed(
            region.len(),
            magic_of(region),
            version_of(region),
            state_of(region),
            payload,
        );
        assert forall|i: int| 0 <= i < region.len() implies e[i] == region[i] by {
            if 16 <= i < 20 {
                assert(region.subrange(16, 20)[i - 16] == region[i]);
            }
        }
        assert(e =~= region);
    }
}

/// The blocks of a region of whole blocks are its chunks.
pub proof fn lemma_region_blocks(disk: Disk, start: int, count: nat, k: int)
    requires
        0 <= k < count,
        forall|i: int| start <= i < start + count ==> (#[trigger] disk[i]).len() == BLOCK_SIZE,
    ensures
        region_of(disk, start, count).len() == count * BLOCK_SIZE,
        chunk(region_of(disk, start, count), k) == disk[start + k],
    decreases count,
{
    let all = region_of(disk, start, count);
    let front = region_of(disk, start, (count - 1) as nat);
    assert(disk[start + (count - 1)].len() == BLOCK_SIZE);
    if k < count - 1 {
        lemma_region_blocks(disk, start, (count - 1) as nat, k);
        assert(chunk(all, k) =~= chunk(front, k));
    } else {
        if count > 1 {
            lemma_region_blocks(disk, start, (count - 1) as nat, 0);
        }
        assert(chunk(all, k) =~= disk[start + k]);
    }
}

/// Lays `payload` out in a region of `capacity` bytes, if it fits.
pub fn seal(capacity: usize, magic: &[u8; 4], version: u16, state: u16, payload: &[u8]) -> (r: Option<Vec<u8>>)
    ensures
        match r {
            Some(v) => 32 + payload@.len() <= capacity && v@ == sealed(
                capacity as nat,
                magic@,
                version,
                state,
                payload@,
            ),
            None => 32 + payload@.len() > capacity,
        },
{
    broadcast use bytes::group_bytes;

    if capacity < HEADER_SIZE || payload.len() > capacity - HEADER_SIZE {
        return None;
    }
    let used: usize = HEADER_SIZE + payload.len();
    let mut region = zero_vec(capacity);
    put(&mut region, 0, magic);
    put_u16(&mut region, VERSION_OFFSET, version);
    put_u16(&mut region, STATE_OFFSET, state);
    put_u64(&mut region, PAYLOAD_LEN_OFFSET, payload.len() as u64);
    put(&mut region, HEADER_SIZE, payload);
    let checksum = crc32(slice_subrange(region.as_slice(), 0, used));
    put_u32(&mut region, CHECKSUM_OFFSET, checksum);
    Some(region)
}

/// Takes the payload out of a region.
pub fn open_payload(region: &[u8]) -> (r: Option<Vec<u8>>)
    requires
        region@.len() >= 32,
    ensures
        match r {
            Some(v) => payload_of(region@) == Some(v@),
            None => payload_of(region@) is None,
        },
{
    broadcast use bytes::group_bytes;

    let len: u64 = read_u64(region, PAYLOAD_LEN_OFFSET);
    if !is_zero_run(region, RESERVED_OFFSET, HEADER_SIZE) || len > (region.len() - HEADER_SIZE) as u64 {
        return None;
    }
    let used: usize = HEADER_SIZE + len as usize;
    if !is_zero_run(region, used, region.len()) {
        return None;
    }
    let mut summed: Vec<u8> = slice_to_vec(slice_subrange(region, 0, used));
    let blank = zero_vec(4);
    put(&mut summed, CHECKSUM_OFFSET, blank.as_slice());
    if crc32(summed.as_slice()) != read_u32(region, CHECKSUM_OFFSET) {
        return None;
    }
    Some(slice_to_vec(slice_subrange(region, HEADER_SIZE, used)))
}

/// Whether a region carries this magic and version.
pub fn is_marked(region: &[u8], magic: &[u8; 4], version: u16) -> (b: bool)
    requires
        region@.len() >= 32,
    ensures
        b == (magic_of(region@) == magic@ && version_of(region@) == version),
{
    holds_at(region, 0, magic) && read_u16(region, VERSION_OFFSET) == version
}

/// The bytes of `count` blocks from `start` on.
pub open spec fn region_of(disk: Disk, start: int, count: nat) -> Seq<u8>
    decreases count,
{
    if count == 0 {
        Seq::empty()
    } else {
        region_of(disk, start, (count - 1) as nat) + disk[start + count - 1]
    }
}

/// The `k`th block of a run of bytes.
pub open spec fn chunk(region: Seq<u8>, k: int) -> Seq<u8> {
    region.subrange(k * BLOCK_SIZE, (k + 1) * BLOCK_SIZE)
}

/// A region depends on its own blocks only.
pub proof fn lemma_region_agree(a: Disk, b: Disk, start: int, count: nat)
    requires
        forall|i: int| start <= i < start + count ==> #[trigger] a[i] == b[i],
    ensures
        region_of(a, start, count) == region_of(b, start, count),
    decreases count,
{
    if count > 0 {
        lemma_region_agree(a, b, start, (count - 1) as nat);
    }
}

/// Blocks that hold the chunks of `region` make up `region`.
pub proof fn lemma_region_chunks(disk: Disk, start: int, region: Seq<u8>, count: nat)
    requires
        count * BLOCK_SIZE <= region.len(),
        forall|k: int| 0 <= k < count ==> disk[start + k] == #[trigger] chunk(region, k),
    ensures
        region_of(disk, start, count) == region.subrange(0, count * BLOCK_SIZE),
    decreases count,
{
    if count > 0 {
        lemma_region_chunks(disk, start, region, (count - 1) as nat);
        assert(disk[start + (count - 1)] == chunk(region, count - 1));
        assert(region_of(disk, start, count) =~= region.subrange(0, count * BLOCK_SIZE));
    } else {
        assert(region_of(disk, start, count) =~= region.subrange(0, 0));
    }
}

/// The first block of a region stands at its front.
pub proof fn lemma_region_first(disk: Disk, start: int, count: nat)
    requires
        count >= 1,
        forall|i: int| start <= i < start + count ==> (#[trigger] disk[i]).len() == BLOCK_SIZE,
    ensures
        region_of(disk, start, count).len() == count * BLOCK_SIZE,
        region_of(disk, start, count).subrange(0, BLOCK_SIZE as int) == disk[start],
    decreases count,
{
    if count > 1 {
        lemma_region_first(disk, start, (count - 1) as nat);
        assert(region_of(disk, start, count).subrange(0, BLOCK_SIZE as int) =~= region_of(
            disk,
            start,
            (count - 1) as nat,
        ).subrange(0, BLOCK_SIZE as int));
    } else {
        reveal_with_fuel(region_of, 2);
        assert(region_of(disk, start, count) =~= disk[start]);
        assert(region_of(disk, start, count).subrange(0, BLOCK_SIZE as int) =~= disk[start]);
    }
}

/// Copies one block out of a longer run of bytes.
pub fn block_from(region: &[u8], at: usize) -> (b: Block)
    requires
        at + BLOCK_SIZE <= region@.len(),
    ensures
        b@ == region@.subrange(at as int, at + BLOCK_SIZE),
{
    assert(region.len() == region@.len());
    let mut b: Block = [0u8; BLOCK_SIZE];
    let mut i: usize = 0;
    while i < BLOCK_SIZE
        invariant
            at + BLOCK_SIZE <= region@.len() <= usize::MAX,
            i <= BLOCK_SIZE,
            forall|k: int| 0 <= k < i ==> #[trigger] b@[k] == region@[at + k],
        decreases BLOCK_SIZE - i,
    {
        b[i] = region[at + i];
        i += 1;
    }
    assert(b@ =~= region@.subrange(at as int, at + BLOCK_SIZE));
    b
}

/// Appends the bytes of a block.
pub fn push_block(region: &mut Vec<u8>, b: &Block)
    ensures
        final(region)@ == old(region)@ + b@,
{
    let ghost before = region@;
    let mut i: usize = 0;
    while i < BLOCK_SIZE
        invariant
            i <= BLOCK_SIZE,
            region@ == before + b@.subrange(0, i as int),
        decreases BLOCK_SIZE - i,
    {
        region.push(b[i]);
        assert(b@.subrange(0, i + 1) =~= b@.subrange(0, i as int).push(b@[i as int]));
        i += 1;
    }
    assert(b@.subrange(0, BLOCK_SIZE as int) =~= b@);
}

/// Reads `count` blocks from `start` on.
pub fn read_region<D: BlockDevice>(device: &mut D, start: u64, count: u64) -> (r: Result<Vec<u8>, Error>)
    requires
        start + count <= u64::MAX,
    ensures
        block::untouched(old(device), final(device)),
        match r {
            Ok(v) => {
                &&& count > 0 ==> start + count <= old(device).blocks().len()
                &&& v@ == region_of(old(device).blocks(), start as int, count as nat)
                &&& v@.len() == count * BLOCK_SIZE
                &&& forall|i: int|
                    start <= i < start + count ==> (#[trigger] old(device).blocks()[i]).len()
                        == BLOCK_SIZE
            },
            Err(_) => !(old(device).healthy() && start + count <= old(device).blocks().len()),
        },
{
    let ghost disk = device.blocks();
    let ghost healthy = device.healthy();
    let ghost durable = device.durable();
    let mut region: Vec<u8> = Vec::new();
    let mut i: u64 = 0;
    while i < count
        invariant
            start + count <= u64::MAX,
            i <= count,
            device.blocks() == disk,
            healthy ==> device.healthy(),
            device.durable().subset_of(durable),
            disk == old(device).blocks(),
            healthy == old(device).healthy(),
            durable == old(device).durable(),
            i > 0 ==> start + i <= disk.len(),
            region@ == region_of(disk, start as int, i as nat),
            region@.len() == i * BLOCK_SIZE,
            forall|k: int| start <= k < start + i ==> (#[trigger] disk[k]).len() == BLOCK_SIZE,
        decreases count - i,
    {
        let mut buf: Block = [0u8; BLOCK_SIZE];
        device.read_block(start + i, &mut buf)?;
        push_block(&mut region, &buf);
        i += 1;
    }
    Ok(region)
}

/// The blocks of a run of bytes.
pub open spec fn chunks(data: Seq<u8>) -> Seq<Seq<u8>> {
    Seq::new(data.len() / (BLOCK_SIZE as nat), |k: int| chunk(data, k))
}

/// Cuts a run of whole blocks apart; what is left over at the end is left out.
pub fn cut_blocks(data: &[u8]) -> (r: Vec<Block>)
    ensures
        Seq::new(r@.len(), |i: int| r@[i]@) == chunks(data@),
{
    let count: usize = data.len() / BLOCK_SIZE;
    let mut list: Vec<Block> = Vec::new();
    let mut k: usize = 0;
    while k < count
        invariant
            count == data@.len() / (BLOCK_SIZE as nat),
            data@.len() <= usize::MAX,
            k <= count,
            list@.len() == k,
            forall|i: int| 0 <= i < k ==> (#[trigger] list@[i])@ == chunk(data@, i),
        decreases count - k,
    {
        list.push(block_from(data, k * BLOCK_SIZE));
        k += 1;
    }
    assert(Seq::new(list@.len(), |i: int| list@[i]@) =~= chunks(data@));
    list
}

} // verus!
