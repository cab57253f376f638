//! The uniform connection contract surrounding code programs against.

use vstd::prelude::*;

use crate::address::InstAddr;
use crate::err::Error;
use crate::termination_bytes::TerminationBytes;

verus! {

/// The lifecycle every instrument connection offers: the owning address,
/// timeouts applied to both directions, reconnection, and the termination
/// policy that frames reads.
pub trait InstConnection {
    fn address(&self) -> InstAddr;

    fn set_timeout(&mut self, timeout_ms: u64) -> Result<(), Error>;

    fn reconnect(&mut self) -> Result<(), Error>;

    fn set_termination(&mut self, term_bytes: TerminationBytes) -> Result<(), Error>;
}

} // verus!
