//! The block device that a file system lives on.

use vstd::prelude::*;
use crate::error::{Error, ErrorKind};

verus! {

/// Bytes in one block.
pub const BLOCK_SIZE: usize = 4096;

/// Bytes in one block, as a 64-bit number.
pub const BLOCK_SIZE_U64: u64 = 4096;

/// The bytes of one block.
pub type Block = [u8; BLOCK_SIZE];

/// The contents of a device, block by block.
pub type Disk = Seq<Seq<u8>>;

/// A device of numbered blocks that are read and written whole.
///
/// A written block may reach the medium at any time from then on, and has reached it after the
/// next successful flush. A write that fails has changed its block wholly or not at all.
///
/// A device says what it holds through three specification functions. A device outside of verified
/// code leaves them out.
pub trait BlockDevice {
    /// What reads give back, block by block.
    closed spec fn blocks(&self) -> Disk {
        arbitrary()
    }

    /// Every request from now on that names an existing block succeeds.
    closed spec fn healthy(&self) -> bool {
        arbitrary()
    }

    /// What the medium may hold if the device loses power now.
    closed spec fn durable(&self) -> Set<Disk> {
        arbitrary()
    }

    /// The number of blocks.
    fn block_count(&self) -> (n: u64)
        ensures
            n == self.blocks().len(),
    ;

    /// Reads one block.
    fn read_block(&mut self, block: u64, buf: &mut [u8; BLOCK_SIZE]) -> (r: Result<(), Error>)
        ensures
            final(self).blocks() == old(self).blocks(),
            old(self).healthy() ==> final(self).healthy(),
            final(self).durable().subset_of(old(self).durable()),
            r is Ok ==> block < old(self).blocks().len() && final(buf)@
                == old(self).blocks()[block as int],
            old(self).healthy() && block < old(self).blocks().len() ==> r is Ok,
    ;

    /// Writes one block.
    fn write_block(&mut self, block: u64, buf: &[u8; BLOCK_SIZE]) -> (r: Result<(), Error>)
        ensures
            old(self).healthy() ==> final(self).healthy(),
            r is Ok ==> block < old(self).blocks().len() && final(self).blocks()
                == old(self).blocks().update(block as int, buf@),
            r is Err ==> final(self).blocks() == old(self).blocks() || (block
                < old(self).blocks().len() && final(self).blocks() == old(self).blocks().update(
                block as int,
                buf@,
            )),
            forall|image: Disk| #[trigger]
                final(self).durable().contains(image) ==> written_from(
                    old(self).durable(),
                    block as int,
                    buf@,
                    image,
                ),
            old(self).healthy() && block < old(self).blocks().len() ==> r is Ok,
    ;

    /// Waits until every successful write has reached the medium.
    fn flush(&mut self) -> (r: Result<(), Error>)
        ensures
            final(self).blocks() == old(self).blocks(),
            old(self).healthy() ==> final(self).healthy(),
            r is Ok ==> forall|image: Disk| #[trigger]
                final(self).durable().contains(image) ==> image == old(self).blocks(),
            r is Err ==> final(self).durable().subset_of(old(self).durable()),
            old(self).healthy() ==> r is Ok,
    ;
}

/// `image` is what a medium that may have held `before` may hold once a write of `data` to `block`
/// was issued.
pub open spec fn written_from(before: Set<Disk>, block: int, data: Seq<u8>, image: Disk) -> bool {
    before.contains(image) || exists|base: Disk| #[trigger]
        before.contains(base) && 0 <= block < base.len() && image == base.update(block, data)
}

/// Nothing was written between `before` and `after`.
pub open spec fn untouched<D: BlockDevice>(before: &D, after: &D) -> bool {
    &&& after.blocks() == before.blocks()
    &&& before.healthy() ==> after.healthy()
    &&& after.durable().subset_of(before.durable())
}

/// The medium holds what reads give back.
pub open spec fn settled<D: BlockDevice>(device: &D) -> bool {
    forall|image: Disk| #[trigger] device.durable().contains(image) ==> image == device.blocks()
}

/// The number of bytes in `blocks` blocks.
pub fn device_size(blocks: u64) -> (r: Result<u64, Error>)
    ensures
        match r {
            Ok(n) => n == blocks * BLOCK_SIZE_U64,
            Err(e) => blocks * BLOCK_SIZE_U64 > u64::MAX && e.kind == ErrorKind::InvalidInput,
        },
{
    match blocks.checked_mul(BLOCK_SIZE_U64) {
        Some(n) => Ok(n),
        None => Err(Error::new(ErrorKind::InvalidInput, "block device size overflows u64")),
    }
}

/// The number of blocks in `len` bytes, which must be whole blocks.
pub fn device_blocks(len: u64) -> (r: Result<u64, Error>)
    ensures
        match r {
            Ok(n) => len == n * BLOCK_SIZE_U64,
            Err(e) => len % BLOCK_SIZE_U64 != 0 && e.kind == ErrorKind::InvalidData,
        },
{
    if len % BLOCK_SIZE_U64 != 0 {
        return Err(Error::new(ErrorKind::InvalidData, "device length is not block aligned"));
    }
    Ok(len / BLOCK_SIZE_U64)
}

/// Where a block of a device of `blocks` blocks starts, in bytes.
pub fn block_offset(blocks: u64, block: u64) -> (r: Result<u64, Error>)
    ensures
        match r {
            Ok(n) => block < blocks && n == block * BLOCK_SIZE_U64,
            Err(e) => if block >= blocks {
                e.kind == ErrorKind::UnexpectedEof
            } else {
                block * BLOCK_SIZE_U64 > u64::MAX && e.kind == ErrorKind::InvalidInput
            },
        },
{
    if block >= blocks {
        return Err(Error::new(ErrorKind::UnexpectedEof, "block index is outside the device"));
    }
    device_size(block)
}

} // verus!
