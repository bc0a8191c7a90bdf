//! The service surface: request handlers for headers, transactions
//! and script hashes, the utility endpoints, and the mapping of
//! admission verdicts to client-visible statuses.

use vstd::prelude::*;
use vstd::string::StringExecFns;

use crate::state::BarrierError;

pub mod header;
pub mod script_hash;
pub mod transaction;
pub mod utility;

verus! {

/// A client-visible status code.
#[derive(Copy, Clone, PartialEq, Eq, Structural, Debug)]
pub enum Code {
    InvalidArgument,
    NotFound,
    Internal,
    Unavailable,
    ResourceExhausted,
    FailedPrecondition,
    Unimplemented,
}

/// A client-visible failure: a code and a message that reveals no
/// internal detail.
#[derive(Debug)]
pub struct RpcStatus {
    pub code: Code,
    pub message: String,
}

/// Map an admission verdict to the retryable status a client sees:
/// syncing is unavailable, expulsion during a reorganisation is
/// resource exhaustion.
pub fn barrier_error_status(e: BarrierError) -> (r: RpcStatus)
    ensures
        match e {
            BarrierError::Syncing => r.code == Code::Unavailable && r.message@
                == "server syncing"@,
            BarrierError::ReOrgOverflow => r.code == Code::ResourceExhausted && r.message@
                == "request expelled during reorg"@,
        },
{
    match e {
        BarrierError::Syncing => RpcStatus {
            code: Code::Unavailable,
            message: String::from_str("server syncing"),
        },
        BarrierError::ReOrgOverflow => RpcStatus {
            code: Code::ResourceExhausted,
            message: String::from_str("request expelled during reorg"),
        },
    }
}

} // verus!
