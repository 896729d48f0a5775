//! What a request does to a device, as a function of its contents.

use vstd::prelude::*;
use crate::block;
use crate::block::{BlockDevice, Disk};
use crate::error::{Error, ErrorKind};

verus! {

/// The contents that a request leaves behind, and what it returns.
pub struct Step<T> {
    pub disk: Disk,
    pub result: Result<T, ErrorKind>,
}

/// A request that returns without writing.
pub open spec fn stay<T>(disk: Disk, result: Result<T, ErrorKind>) -> Step<T> {
    Step { disk, result }
}

/// A result with its error reduced to the category.
pub open spec fn kinded<T>(r: Result<T, Error>) -> Result<T, ErrorKind> {
    match r {
        Ok(v) => Ok(v),
        Err(e) => Err(e.kind),
    }
}

/// A list with its error reduced to the category.
pub open spec fn listed<T>(r: Result<Vec<T>, Error>) -> Result<Seq<T>, ErrorKind> {
    match r {
        Ok(v) => Ok(v@),
        Err(e) => Err(e.kind),
    }
}

/// The device did what `step` says: whenever the request succeeded, and always on a device that
/// serves every request.
pub open spec fn follows<D: BlockDevice, T>(before: &D, after: &D, result: Result<T, ErrorKind>, step: Step<T>) -> bool {
    &&& before.healthy() ==> after.healthy()
    &&& after.blocks().len() == before.blocks().len()
    &&& (before.healthy() || result is Ok) ==> after.blocks() == step.disk && result == step.result
}

/// A request that its arguments alone rule out is refused as invalid input on every device, and does
/// nothing.
pub open spec fn turned_away<D: BlockDevice, T>(before: &D, after: &D, result: Result<T, ErrorKind>, ruled_out: bool) -> bool {
    ruled_out ==> result == Err::<T, ErrorKind>(ErrorKind::InvalidInput) && block::untouched(
        before,
        after,
    )
}

} // verus!
