//! Whether a pool is ready to be served, and what is reported of it.

use crate::api::{api_error, refuses, unavailable, ApiError, NoReply, Status};
use vstd::prelude::*;

verus! {

/// What the indexer knows of a pool.
#[derive(Clone, Copy, Debug, PartialEq, Eq)]
pub struct PoolProgress {
    pub tree_out_of_order: bool,
    pub frozen_paths_ready: bool,
    pub shadow_mode: bool,
    pub next_block: u64,
    pub next_leaf: u64,
    pub confirmed_count: u64,
}

/// What is reported of a pool.
#[derive(Clone, Copy, Debug, PartialEq, Eq)]
pub struct Readiness {
    /// Whether the tree that is served is the canonical one.
    pub canonical: bool,
    /// The last block that has been indexed.
    pub indexed_through: u64,
    pub confirmed_count: u64,
    /// The number of leaves in the tree that are not confirmed yet.
    pub pending_cmx: u64,
}

/// Refuses a request without the credential.
pub fn require_credential(authorized: bool) -> (r: Result<(), ApiError>)
    ensures
        authorized ==> r is Ok,
        !authorized ==> refuses(r, Status::Unauthorized, "readiness credential required"@),
{
    if !authorized {
        return Err(api_error(Status::Unauthorized, "readiness credential required"));
    }
    Ok(())
}

/// The admission of a pool, given what the catalog answered: an admission, none, or the reason why
/// it refuses one.
pub fn require_admission<T>(admission: Result<Option<T>, String>) -> (r: Result<T, ApiError>)
    ensures
        match admission {
            Ok(Some(admission)) => r == Ok::<T, ApiError>(admission),
            Ok(None) => refuses(r, Status::ServiceUnavailable, "signed admission not configured"@),
            Err(reason) => refuses(r, Status::ServiceUnavailable, reason@),
        },
{
    match admission {
        Ok(Some(admission)) => Ok(admission),
        Ok(None) => Err(unavailable("signed admission not configured")),
        Err(reason) => Err(unavailable(reason.as_str())),
    }
}

/// Refuses a pool that could not be verified, or was not.
pub fn require_verified(verified: Result<bool, NoReply>) -> (r: Result<(), ApiError>)
    ensures
        match verified {
            Err(_) => refuses(r, Status::ServiceUnavailable, "pool verification unavailable"@),
            Ok(false) => refuses(r, Status::ServiceUnavailable, "pool verification failed"@),
            Ok(true) => r is Ok,
        },
{
    match verified {
        Err(_) => Err(unavailable("pool verification unavailable")),
        Ok(verified) => if verified {
            Ok(())
        } else {
            Err(unavailable("pool verification failed"))
        },
    }
}

/// The difference of two numbers, or zero where it would be negative.
pub open spec fn minus(a: u64, b: u64) -> u64 {
    if a >= b {
        (a - b) as u64
    } else {
        0
    }
}

/// What to report of a pool: it is canonical if its tree is in order, its frozen paths are ready,
/// and it is not a shadow.
pub fn readiness(progress: &PoolProgress) -> (r: Readiness)
    ensures
        r == (Readiness {
            canonical: !progress.tree_out_of_order && progress.frozen_paths_ready
                && !progress.shadow_mode,
            indexed_through: minus(progress.next_block, 1),
            confirmed_count: progress.confirmed_count,
            pending_cmx: minus(progress.next_leaf, progress.confirmed_count),
        }),
{
    Readiness {
        canonical: !progress.tree_out_of_order && progress.frozen_paths_ready
            && !progress.shadow_mode,
        indexed_through: progress.next_block.saturating_sub(1),
        confirmed_count: progress.confirmed_count,
        pending_cmx: progress.next_leaf.saturating_sub(progress.confirmed_count),
    }
}

/// A difference does not go below zero.
pub proof fn law_minus(a: u64, b: u64)
    ensures
        b <= a ==> minus(a, b) + b == a,
        b > a ==> minus(a, b) == 0,
{
}

} // verus!
